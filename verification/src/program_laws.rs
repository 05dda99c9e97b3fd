//! What the scripts that ask a device about itself and its files print: a small
//! interpreter runs their statements on a model of a device, and what they print
//! reads back as what the device holds.

use vstd::prelude::*;

use crate::device;
use crate::error::ErrorView;
use crate::python;
use crate::replies;
use crate::replies::InfoView;
use crate::replies::StatView;
use crate::scripts;
use crate::session::Output;
use crate::text;
use crate::transfer_laws;

verus! {

// ---------------------------------------------------------------------------
// A device, and the statements that ask it
// ---------------------------------------------------------------------------

/// What a device can be asked: `sys.version`, `sys.platform`, `sys.implementation` and,
/// if it has one, its `_machine`; the free memory before and after a collection; and
/// what `os.statvfs` and `os.stat` give for the paths that exist.
pub struct World {
    pub version: Seq<char>,
    pub platform: Seq<char>,
    pub implementation: Seq<char>,
    pub machine: Option<Seq<char>>,
    pub mem_before: nat,
    pub mem_free: nat,
    pub statvfs: Map<Seq<char>, Seq<nat>>,
    pub stat: Map<Seq<char>, Seq<nat>>,
}

/// The state of a program: the modules that it imported, whether memory was collected,
/// its variables, and the lines that it has printed.
pub struct Env {
    pub imported: Seq<char>,
    pub collected: bool,
    pub m: Option<Seq<char>>,
    pub s: Seq<nat>,
    pub out: Seq<Seq<char>>,
}

/// The state at the start of a program.
pub open spec fn fresh() -> Env {
    Env {
        imported: Seq::empty(),
        collected: false,
        m: None,
        s: Seq::empty(),
        out: Seq::empty(),
    }
}

/// Whether a module was imported.
pub open spec fn has(e: Env, module: Seq<char>) -> bool {
    text::has_text(e.imported, module)
}

/// The value of a literal without escapes.
pub open spec fn literal(t: Seq<char>) -> Option<Seq<char>> {
    match transfer_laws::between(t, "'"@, "'"@) {
        Some(x) => if x.contains('\'') || x.contains('\\') {
            None
        } else {
            Some(x)
        },
        None => None,
    }
}

/// The value of a digit.
pub open spec fn digit(c: char) -> int {
    (c as u32) - ('0' as u32)
}

/// An element of the tuple `s`, by its index of one digit.
pub open spec fn element(e: Env, t: Seq<char>) -> Option<nat> {
    match transfer_laws::between(t, "s["@, "]"@) {
        Some(d) => if d.len() == 1 && 0 <= digit(d[0]) <= 9 && digit(d[0]) < e.s.len() {
            Some(e.s[digit(d[0])])
        } else {
            None
        },
        None => None,
    }
}

/// The value of a number: the free memory, an element, or the product of two elements.
pub open spec fn number(w: World, e: Env, t: Seq<char>) -> Option<nat> {
    if t == "gc.mem_free()"@ {
        if has(e, "gc"@) {
            Some(
                if e.collected {
                    w.mem_free
                } else {
                    w.mem_before
                },
            )
        } else {
            None
        }
    } else {
        match text::split_at_first(t, '*') {
            Some((a, b)) => match (element(e, a), element(e, b)) {
                (Some(x), Some(y)) => Some(x * y),
                _ => None,
            },
            None => element(e, t),
        }
    }
}

/// The value of a text.
pub open spec fn value(w: World, e: Env, t: Seq<char>) -> Option<Seq<char>> {
    if t == "m"@ {
        e.m
    } else if t == "sys.version"@ {
        if has(e, "sys"@) {
            Some(w.version)
        } else {
            None
        }
    } else if t == "sys.platform"@ {
        if has(e, "sys"@) {
            Some(w.platform)
        } else {
            None
        }
    } else {
        match transfer_laws::between(t, "str("@, ")"@) {
            Some(x) => if x == "sys.implementation._machine"@ {
                if has(e, "sys"@) {
                    w.machine
                } else {
                    None
                }
            } else if x == "sys.implementation"@ {
                if has(e, "sys"@) {
                    Some(w.implementation)
                } else {
                    None
                }
            } else {
                match number(w, e, x) {
                    Some(n) => Some(text::decimal(n)),
                    None => None,
                }
            },
            None => None,
        }
    }
}

/// The value of a literal and a text with ` + ` in between.
pub open spec fn sum(w: World, e: Env, t: Seq<char>) -> Option<Seq<char>> {
    match text::split_at_first(t, '+') {
        Some((a, b)) => match (
            transfer_laws::between(a, Seq::empty(), " "@),
            transfer_laws::between(b, " "@, Seq::empty()),
        ) {
            (Some(x), Some(y)) => match (literal(x), value(w, e, y)) {
                (Some(p), Some(q)) => Some(p + q),
                _ => None,
            },
            _ => None,
        },
        None => None,
    }
}

/// Runs a statement, of the kinds that the scripts are made of. Nothing where it raises
/// an exception.
pub open spec fn step(w: World, e: Env, line: Seq<char>) -> Option<Env> {
    if line == "pass"@ {
        Some(e)
    } else if line == "gc.collect()"@ {
        if has(e, "gc"@) {
            Some(Env { collected: true, ..e })
        } else {
            None
        }
    } else if let Some(modules) = transfer_laws::between(line, "import "@, Seq::empty()) {
        Some(Env { imported: modules, ..e })
    } else if let Some(x) = transfer_laws::between(line, "m="@, Seq::empty()) {
        match value(w, e, x) {
            Some(v) => Some(Env { m: Some(v), ..e }),
            None => None,
        }
    } else if let Some(x) = transfer_laws::between(line, "s=os.statvfs("@, ")"@) {
        match literal(x) {
            Some(p) => if has(e, "os"@) && w.statvfs.dom().contains(p) {
                Some(Env { s: w.statvfs[p], ..e })
            } else {
                None
            },
            None => None,
        }
    } else if let Some(x) = transfer_laws::between(line, "s=os.stat("@, ")"@) {
        match python::read_str(x) {
            Some(p) => if has(e, "os"@) && w.stat.dom().contains(p) {
                Some(Env { s: w.stat[p], ..e })
            } else {
                None
            },
            None => None,
        }
    } else if let Some(x) = transfer_laws::between(line, "print("@, ")"@) {
        match sum(w, e, x) {
            Some(t) => Some(Env { out: e.out.push(t), ..e }),
            None => None,
        }
    } else {
        None
    }
}

// ---------------------------------------------------------------------------
// Running a program
// ---------------------------------------------------------------------------

/// How many spaces a line starts with.
pub open spec fn indent(line: Seq<char>) -> nat
    decreases line.len(),
{
    if line.len() > 0 && line[0] == ' ' {
        1 + indent(line.skip(1))
    } else {
        0
    }
}

/// A line without the spaces that it starts with.
pub open spec fn bare(line: Seq<char>) -> Seq<char> {
    line.skip(indent(line) as int)
}

/// How many lines at the start belong to a block of a statement with an indentation.
pub open spec fn block(ls: Seq<Seq<char>>, ind: nat) -> nat
    decreases ls.len(),
{
    if ls.len() > 0 && indent(ls[0]) > ind {
        1 + block(ls.skip(1), ind)
    } else {
        0
    }
}

/// Whether lines go on with an indentation.
pub open spec fn goes_on_at(ls: Seq<Seq<char>>, ind: nat) -> bool {
    ls.len() == 0 || indent(ls[0]) == ind
}

pub proof fn lemma_block_len(ls: Seq<Seq<char>>, ind: nat)
    ensures
        block(ls, ind) <= ls.len(),
    decreases ls.len(),
{
    if ls.len() > 0 {
        lemma_block_len(ls.skip(1), ind);
    }
}

/// Runs a program: the state that it ends in, and whether it got to its end. Where the
/// block of a `try:` raises an exception, that of its `except:` is run.
pub open spec fn run(w: World, e: Env, ls: Seq<Seq<char>>) -> (Env, bool)
    decreases ls.len(),
{
    if ls.len() == 0 {
        (e, true)
    } else if bare(ls[0]) == "try:"@ {
        proof {
            lemma_block_len(ls.skip(1), indent(ls[0]));
            lemma_block_len(
                ls.skip(1 + block(ls.skip(1), indent(ls[0])) as int).skip(1),
                indent(ls[0]),
            );
        }
        let ind = indent(ls[0]);
        let n = block(ls.skip(1), ind);
        let rest = ls.skip(1 + n as int);
        if rest.len() == 0 || indent(rest[0]) != ind || bare(rest[0]) != "except:"@ {
            (e, false)
        } else {
            let k = block(rest.skip(1), ind);
            let body = run(w, e, ls.subrange(1, 1 + n as int));
            let both = if body.1 {
                body
            } else {
                run(w, body.0, rest.subrange(1, 1 + k as int))
            };
            let after = rest.skip(1 + k as int);
            if both.1 && goes_on_at(after, ind) {
                run(w, both.0, after)
            } else {
                (both.0, false)
            }
        }
    } else {
        match step(w, e, bare(ls[0])) {
            Some(g) => if goes_on_at(ls.skip(1), indent(ls[0])) {
                run(w, g, ls.skip(1))
            } else {
                (g, false)
            },
            None => (e, false),
        }
    }
}

/// Runs a script.
pub open spec fn run_script(w: World, script: Seq<char>) -> (Env, bool) {
    run(w, fresh(), text::lines(script))
}

/// Whether lines all belong to a block.
pub open spec fn inside(ls: Seq<Seq<char>>, ind: nat) -> bool {
    forall|i: int| 0 <= i < ls.len() ==> indent(#[trigger] ls[i]) > ind
}

proof fn lemma_block(ls: Seq<Seq<char>>, rest: Seq<Seq<char>>, ind: nat)
    requires
        inside(ls, ind),
        rest.len() == 0 || indent(rest[0]) <= ind,
    ensures
        block(ls + rest, ind) == ls.len(),
    decreases ls.len(),
{
    if ls.len() == 0 {
        assert(ls + rest =~= rest);
    } else {
        assert((ls + rest)[0] == ls[0]);
        assert((ls + rest).skip(1) =~= ls.skip(1) + rest);
        assert(inside(ls.skip(1), ind)) by {
            assert forall|i: int| 0 <= i < ls.skip(1).len() implies indent(
                #[trigger] ls.skip(1)[i],
            ) > ind by {
                assert(ls.skip(1)[i] == ls[i + 1]);
            }
        }
        lemma_block(ls.skip(1), rest, ind);
    }
}

proof fn lemma_run_step(w: World, e: Env, line: Seq<char>, rest: Seq<Seq<char>>)
    requires
        bare(line) != "try:"@,
        goes_on_at(rest, indent(line)),
    ensures
        run(w, e, seq![line] + rest) == (match step(w, e, bare(line)) {
            Some(g) => run(w, g, rest),
            None => (e, false),
        }),
{
    let ls = seq![line] + rest;
    assert(ls[0] == line);
    assert(ls.skip(1) =~= rest);
}

proof fn lemma_run_try(
    w: World,
    e: Env,
    first: Seq<char>,
    body: Seq<Seq<char>>,
    second: Seq<char>,
    handler: Seq<Seq<char>>,
    after: Seq<Seq<char>>,
)
    requires
        bare(first) == "try:"@,
        bare(second) == "except:"@,
        indent(second) == indent(first),
        inside(body, indent(first)),
        inside(handler, indent(first)),
        goes_on_at(after, indent(first)),
    ensures
        run(w, e, seq![first] + (body + (seq![second] + (handler + after)))) == ({
            let tried = run(w, e, body);
            let both = if tried.1 {
                tried
            } else {
                run(w, tried.0, handler)
            };
            if both.1 {
                run(w, both.0, after)
            } else {
                (both.0, false)
            }
        }),
{
    let ind = indent(first);
    let tail = seq![second] + (handler + after);
    let ls = seq![first] + (body + tail);
    assert(ls[0] == first);
    assert(ls.skip(1) =~= body + tail);
    assert(tail[0] == second);
    lemma_block(body, tail, ind);
    assert(ls.skip(1 + body.len() as int) =~= tail);
    assert(ls.subrange(1, 1 + body.len() as int) =~= body);
    assert(tail.skip(1) =~= handler + after);
    lemma_block(handler, after, ind);
    assert(tail.subrange(1, 1 + handler.len() as int) =~= handler);
    assert(tail.skip(1 + handler.len() as int) =~= after);
}

proof fn lemma_run_two(w: World, e: Env, a: Seq<char>, b: Seq<char>)
    requires
        bare(a) != "try:"@,
        bare(b) != "try:"@,
        indent(a) == indent(b),
    ensures
        run(w, e, seq![a, b]) == (match step(w, e, bare(a)) {
            Some(g) => match step(w, g, bare(b)) {
                Some(h) => (h, true),
                None => (g, false),
            },
            None => (e, false),
        }),
{
    assert(seq![a, b] =~= seq![a] + (seq![b] + Seq::empty()));
    lemma_run_step(w, e, a, seq![b] + Seq::empty());
    match step(w, e, bare(a)) {
        Some(g) => {
            lemma_run_step(w, g, b, Seq::empty());
        },
        None => {},
    }
}

// ---------------------------------------------------------------------------
// Statements
// ---------------------------------------------------------------------------

pub proof fn lemma_between(begin: Seq<char>, mid: Seq<char>, end: Seq<char>)
    ensures
        transfer_laws::between(begin + mid + end, begin, end) == Some(mid),
{
    let s = begin + mid + end;
    assert(s.take(begin.len() as int) =~= begin);
    assert(s.skip(s.len() - end.len()) =~= end);
    assert(s.subrange(begin.len() as int, s.len() - end.len()) =~= mid);
}

proof fn lemma_not_between(s: Seq<char>, begin: Seq<char>, end: Seq<char>, i: int)
    requires
        0 <= i < begin.len(),
        i < s.len() ==> s[i] != begin[i],
    ensures
        transfer_laws::between(s, begin, end) is None,
{
    if begin.len() <= s.len() {
        assert(s.take(begin.len() as int)[i] == s[i]);
    }
}

proof fn lemma_split(a: Seq<char>, c: char, b: Seq<char>)
    requires
        !a.contains(c),
    ensures
        text::split_at_first(a + seq![c] + b, c) == Some((a, b)),
{
    let s = a + seq![c] + b;
    assert(s[a.len() as int] == c);
    assert forall|j: int| 0 <= j < a.len() implies s[j] != c by {
        assert(s[j] == a[j]);
        assert(a.contains(a[j]));
    }
    text::lemma_position_unique(s, c, a.len());
    assert(s.take(a.len() as int) =~= a);
    assert(s.skip(a.len() as int + 1) =~= b);
}

proof fn lemma_literal(x: Seq<char>)
    requires
        !x.contains('\''),
        !x.contains('\\'),
    ensures
        literal("'"@ + x + "'"@) == Some(x),
{
    lemma_between("'"@, x, "'"@);
}

/// Printing a key and a value.
proof fn lemma_print(w: World, e: Env, key: Seq<char>, t: Seq<char>)
    requires
        transfer_laws::is_key(key),
    ensures
        ({
            let line = "print("@ + ("'"@ + (key + ":"@) + "'"@ + " + "@ + t) + ")"@;
            step(w, e, line) == (match value(w, e, t) {
                Some(v) => Some(
                    Env { out: e.out.push(transfer_laws::key_line(key, v)), ..e },
                ),
                None => None,
            })
        }),
{
    reveal_strlit("print(");
    reveal_strlit("'");
    reveal_strlit(":");
    reveal_strlit(" + ");
    reveal_strlit(" ");
    reveal_strlit(")");
    reveal_strlit("pass");
    reveal_strlit("gc.collect()");
    reveal_strlit("import ");
    reveal_strlit("m=");
    reveal_strlit("s=os.statvfs(");
    reveal_strlit("s=os.stat(");
    let lit = "'"@ + (key + ":"@) + "'"@;
    let inner = lit + " + "@ + t;
    let line = "print("@ + inner + ")"@;
    assert(line[0] == 'p' && line[1] == 'r');
    assert("pass"@[1] == 'a');
    assert("gc.collect()"@[0] == 'g');
    lemma_not_between(line, "import "@, Seq::empty(), 0);
    lemma_not_between(line, "m="@, Seq::empty(), 0);
    lemma_not_between(line, "s=os.statvfs("@, ")"@, 0);
    lemma_not_between(line, "s=os.stat("@, ")"@, 0);
    lemma_between("print("@, inner, ")"@);
    let kc = key + ":"@;
    assert forall|i: int| 0 <= i < kc.len() implies kc[i] != '\'' && kc[i] != '\\' && kc[i]
        != '+' by {
        if i < key.len() {
            assert(kc[i] == key[i]);
        }
    }
    lemma_literal(kc);
    let a = lit + " "@;
    let b = " "@ + t;
    assert forall|i: int| 0 <= i < a.len() implies a[i] != '+' by {
        if 1 <= i <= kc.len() {
            assert(a[i] == kc[i - 1]);
        }
    }
    assert(inner =~= a + seq!['+'] + b);
    lemma_split(a, '+', b);
    assert(a =~= Seq::empty() + lit + " "@);
    lemma_between(Seq::empty(), lit, " "@);
    assert(b =~= " "@ + t + Seq::empty());
    lemma_between(" "@, t, Seq::empty());
    match value(w, e, t) {
        Some(v) => {
            assert(kc + v =~= transfer_laws::key_line(key, v));
        },
        None => {},
    }
}

/// The text of a number.
proof fn lemma_str(w: World, e: Env, t: Seq<char>)
    requires
        t.len() > 0,
        t[0] == 's' ==> t.len() > 1 && t[1] == '[',
    ensures
        value(w, e, "str("@ + t + ")"@) == (match number(w, e, t) {
            Some(n) => Some(text::decimal(n)),
            None => None,
        }),
{
    reveal_strlit("str(");
    reveal_strlit(")");
    reveal_strlit("m");
    reveal_strlit("sys.version");
    reveal_strlit("sys.platform");
    reveal_strlit("sys.implementation._machine");
    reveal_strlit("sys.implementation");
    let s = "str("@ + t + ")"@;
    assert(s[0] == 's' && s[1] == 't');
    assert("m"@[0] == 'm');
    assert("sys.version"@[1] == 'y');
    assert("sys.platform"@[1] == 'y');
    assert("sys.implementation._machine"@[0] == 's' && "sys.implementation._machine"@[1] == 'y');
    assert("sys.implementation"@[0] == 's' && "sys.implementation"@[1] == 'y');
    lemma_between("str("@, t, ")"@);
}

/// An element.
proof fn lemma_element(e: Env, d: char)
    requires
        '0' <= d <= '9',
        digit(d) < e.s.len(),
    ensures
        element(e, "s["@ + seq![d] + "]"@) == Some(e.s[digit(d)]),
{
    lemma_between("s["@, seq![d], "]"@);
    assert(seq![d][0] == d);
}

/// A product of two elements.
proof fn lemma_product(w: World, e: Env, c: char, d: char)
    requires
        '0' <= c <= '9',
        '0' <= d <= '9',
        digit(c) < e.s.len(),
        digit(d) < e.s.len(),
    ensures
        number(w, e, "s["@ + seq![c] + "]"@ + seq!['*'] + ("s["@ + seq![d] + "]"@)) == Some(
            e.s[digit(c)] * e.s[digit(d)],
        ),
{
    reveal_strlit("s[");
    reveal_strlit("]");
    reveal_strlit("gc.mem_free()");
    let a = "s["@ + seq![c] + "]"@;
    let b = "s["@ + seq![d] + "]"@;
    let t = a + seq!['*'] + b;
    assert(t[0] == 's');
    assert("gc.mem_free()"@[0] == 'g');
    lemma_element(e, c);
    lemma_element(e, d);
    assert forall|i: int| 0 <= i < a.len() implies a[i] != '*' by {}
    lemma_split(a, '*', b);
}

// ---------------------------------------------------------------------------
// The lines of the scripts
// ---------------------------------------------------------------------------

/// Whether a text can stand on a line of its own.
pub open spec fn is_line(l: Seq<char>) -> bool {
    l.len() > 0 && !l.contains('\n') && l.last() != '\r'
}

proof fn lemma_lined(ls: Seq<Seq<char>>)
    requires
        forall|i: int| 0 <= i < ls.len() ==> is_line(#[trigger] ls[i]),
    ensures
        text::lines(scripts::lined(ls)) == ls,
    decreases ls.len(),
{
    if ls.len() == 0 {
        assert(ls =~= Seq::empty());
    } else {
        let rest = ls.skip(1);
        assert forall|i: int| 0 <= i < rest.len() implies is_line(#[trigger] rest[i]) by {
            assert(rest[i] == ls[i + 1]);
        }
        lemma_lined(rest);
        assert(is_line(ls[0]));
        text::lemma_first_line(ls[0], scripts::lined(rest));
        assert(seq![ls[0]] + rest =~= ls);
    }
}

proof fn lemma_bare(l: Seq<char>, ind: nat, plain: Seq<char>)
    requires
        ind <= 2,
        ind < l.len(),
        forall|i: int| 0 <= i < ind ==> l[i] == ' ',
        l[ind as int] != ' ',
        l.skip(ind as int) == plain,
    ensures
        indent(l) == ind,
        bare(l) == plain,
{
    reveal_with_fuel(indent, 4);
    let a = l.skip(1);
    if ind >= 1 {
        assert(a[0] == l[1]);
    }
    if ind >= 2 {
        assert(a.skip(1)[0] == l[2]);
    }
}

/// The statement that prints a key and the value of a text.
spec fn print_of(key: Seq<char>, t: Seq<char>) -> Seq<char> {
    "print("@ + ("'"@ + (key + ":"@) + "'"@ + " + "@ + t) + ")"@
}

/// The text for the product of two elements.
spec fn product_of(c: char, d: char) -> Seq<char> {
    "str("@ + ("s["@ + seq![c] + "]"@ + seq!['*'] + ("s["@ + seq![d] + "]"@)) + ")"@
}

/// The text for an element.
spec fn element_of(d: char) -> Seq<char> {
    "str("@ + ("s["@ + seq![d] + "]"@) + ")"@
}

/// The statement that asks for a file system.
spec fn statvfs_of(path: Seq<char>) -> Seq<char> {
    "s=os.statvfs("@ + ("'"@ + path + "'"@) + ")"@
}

proof fn lemma_no_try(line: Seq<char>)
    requires
        line.len() > 0,
        line[0] != 't',
    ensures
        line != "try:"@,
{
    reveal_strlit("try:");
}

proof fn lemma_import_line(w: World, e: Env)
    ensures
        ({
            let l = "import sys, os, gc"@;
            &&& is_line(l)
            &&& indent(l) == 0
            &&& bare(l) != "try:"@
            &&& step(w, e, bare(l)) is Some
            &&& ({
                let g = step(w, e, bare(l))->0;
                &&& g == (Env { imported: g.imported, ..e })
                &&& has(g, "sys"@)
                &&& has(g, "os"@)
                &&& has(g, "gc"@)
            })
        }),
{
    reveal_strlit("import sys, os, gc");
    reveal_strlit("import ");
    reveal_strlit("sys, os, gc");
    reveal_strlit("sys");
    reveal_strlit("os");
    reveal_strlit("gc");
    reveal_strlit("pass");
    reveal_strlit("gc.collect()");
    let l = "import sys, os, gc"@;
    let mods = "sys, os, gc"@;
    assert(l.skip(0) =~= l);
    lemma_bare(l, 0, l);
    lemma_no_try(l);
    assert(l =~= "import "@ + mods + Seq::empty());
    lemma_between("import "@, mods, Seq::empty());
    assert(l[0] == 'i');
    assert("pass"@[0] == 'p');
    assert("gc.collect()"@[0] == 'g');
    let g = step(w, e, l)->0;
    assert(g.imported == mods);
    assert(mods.subrange(0, 3) =~= "sys"@);
    assert(text::occurs_at(mods, "sys"@, 0));
    assert(mods.subrange(5, 7) =~= "os"@);
    assert(text::occurs_at(mods, "os"@, 5));
    assert(mods.subrange(9, 11) =~= "gc"@);
    assert(text::occurs_at(mods, "gc"@, 9));
}

proof fn lemma_collect_line(w: World, e: Env)
    requires
        has(e, "gc"@),
    ensures
        ({
            let l = "gc.collect()"@;
            &&& is_line(l)
            &&& indent(l) == 0
            &&& bare(l) != "try:"@
            &&& step(w, e, bare(l)) == Some(Env { collected: true, ..e })
        }),
{
    reveal_strlit("gc.collect()");
    reveal_strlit("pass");
    let l = "gc.collect()"@;
    assert(l.skip(0) =~= l);
    lemma_bare(l, 0, l);
    lemma_no_try(l);
    assert("pass"@[0] == 'p');
}

proof fn lemma_print_line(w: World, e: Env, l: Seq<char>, ind: nat, key: Seq<char>, t: Seq<char>)
    requires
        ind <= 2,
        ind < l.len(),
        forall|i: int| 0 <= i < ind ==> l[i] == ' ',
        l.skip(ind as int) == print_of(key, t),
        transfer_laws::is_key(key),
    ensures
        indent(l) == ind,
        bare(l) == print_of(key, t),
        bare(l) != "try:"@,
        step(w, e, bare(l)) == (match value(w, e, t) {
            Some(v) => Some(Env { out: e.out.push(transfer_laws::key_line(key, v)), ..e }),
            None => None,
        }),
{
    reveal_strlit("print(");
    assert(print_of(key, t)[0] == 'p');
    assert(l.skip(ind as int)[0] == l[ind as int]);
    lemma_bare(l, ind, print_of(key, t));
    lemma_no_try(bare(l));
    lemma_print(w, e, key, t);
}

proof fn lemma_version_lines(w: World, e: Env)
    requires
        has(e, "sys"@),
    ensures
        ({
            let l = "print('version:' + sys.version)"@;
            &&& is_line(l)
            &&& indent(l) == 0
            &&& bare(l) != "try:"@
            &&& step(w, e, bare(l)) == Some(
                Env { out: e.out.push(transfer_laws::key_line("version"@, w.version)), ..e },
            )
        }),
        ({
            let l = "print('platform:' + sys.platform)"@;
            &&& is_line(l)
            &&& indent(l) == 0
            &&& bare(l) != "try:"@
            &&& step(w, e, bare(l)) == Some(
                Env { out: e.out.push(transfer_laws::key_line("platform"@, w.platform)), ..e },
            )
        }),
{
    reveal_strlit("print('version:' + sys.version)");
    reveal_strlit("print('platform:' + sys.platform)");
    reveal_strlit("print(");
    reveal_strlit("'");
    reveal_strlit(":");
    reveal_strlit(" + ");
    reveal_strlit(")");
    reveal_strlit("version");
    reveal_strlit("platform");
    reveal_strlit("sys.version");
    reveal_strlit("sys.platform");
    reveal_strlit("m");
    let l = "print('version:' + sys.version)"@;
    assert(l.skip(0) =~= print_of("version"@, "sys.version"@));
    lemma_print_line(w, e, l, 0, "version"@, "sys.version"@);
    let k = "print('platform:' + sys.platform)"@;
    assert(k.skip(0) =~= print_of("platform"@, "sys.platform"@));
    lemma_print_line(w, e, k, 0, "platform"@, "sys.platform"@);
    assert("sys.version"@[4] == 'v');
    assert("sys.platform"@[4] == 'p');
    assert("m"@.len() == 1);
}

#[verifier::rlimit(40)]
proof fn lemma_machine_lines(w: World, e: Env)
    requires
        has(e, "sys"@),
    ensures
        ({
            let l = " m=str(sys.implementation._machine)"@;
            &&& is_line(l)
            &&& indent(l) == 1
            &&& bare(l) != "try:"@
            &&& step(w, e, bare(l)) == (match w.machine {
                Some(v) => Some(Env { m: Some(v), ..e }),
                None => None,
            })
        }),
        ({
            let l = " m=str(sys.implementation)"@;
            &&& is_line(l)
            &&& indent(l) == 1
            &&& bare(l) != "try:"@
            &&& step(w, e, bare(l)) == Some(Env { m: Some(w.implementation), ..e })
        }),
{
    reveal_strlit(" m=str(sys.implementation._machine)");
    reveal_strlit(" m=str(sys.implementation)");
    reveal_strlit("m=");
    reveal_strlit("str(");
    reveal_strlit(")");
    reveal_strlit("sys.implementation._machine");
    reveal_strlit("sys.implementation");
    reveal_strlit("m");
    reveal_strlit("sys.version");
    reveal_strlit("sys.platform");
    reveal_strlit("pass");
    reveal_strlit("gc.collect()");
    reveal_strlit("import ");
    let full = "sys.implementation._machine"@;
    let short = "sys.implementation"@;
    assert(full.len() != short.len());
    assert("sys.version"@[1] == 'y');
    assert("sys.platform"@[1] == 'y');
    assert("m"@.len() == 1);
    assert("pass"@[0] == 'p');
    assert("gc.collect()"@[0] == 'g');
    let l = " m=str(sys.implementation._machine)"@;
    let p = "m="@ + ("str("@ + full + ")"@) + Seq::empty();
    assert(l.skip(1) =~= p);
    lemma_bare(l, 1, p);
    lemma_no_try(p);
    assert(p[0] == 'm');
    lemma_not_between(p, "import "@, Seq::empty(), 0);
    lemma_between("m="@, "str("@ + full + ")"@, Seq::empty());
    assert(("str("@ + full + ")"@)[1] == 't');
    lemma_between("str("@, full, ")"@);
    let k = " m=str(sys.implementation)"@;
    let q = "m="@ + ("str("@ + short + ")"@) + Seq::empty();
    assert(k.skip(1) =~= q);
    lemma_bare(k, 1, q);
    lemma_no_try(q);
    assert(q[0] == 'm');
    lemma_not_between(q, "import "@, Seq::empty(), 0);
    lemma_between("m="@, "str("@ + short + ")"@, Seq::empty());
    assert(("str("@ + short + ")"@)[1] == 't');
    lemma_between("str("@, short, ")"@);
}

#[verifier::rlimit(40)]
proof fn lemma_memory_lines(w: World, e: Env)
    requires
        e.m is Some,
        has(e, "gc"@),
        e.collected,
    ensures
        ({
            let l = "print('machine:' + m)"@;
            &&& is_line(l)
            &&& indent(l) == 0
            &&& bare(l) != "try:"@
            &&& step(w, e, bare(l)) == Some(
                Env { out: e.out.push(transfer_laws::key_line("machine"@, e.m->0)), ..e },
            )
        }),
        ({
            let l = "print('mem_free:' + str(gc.mem_free()))"@;
            &&& is_line(l)
            &&& indent(l) == 0
            &&& bare(l) != "try:"@
            &&& step(w, e, bare(l)) == Some(
                Env {
                    out: e.out.push(
                        transfer_laws::key_line("mem_free"@, text::decimal(w.mem_free)),
                    ),
                    ..e
                },
            )
        }),
{
    reveal_strlit("print('machine:' + m)");
    reveal_strlit("print('mem_free:' + str(gc.mem_free()))");
    reveal_strlit("print(");
    reveal_strlit("'");
    reveal_strlit(":");
    reveal_strlit(" + ");
    reveal_strlit(")");
    reveal_strlit("machine");
    reveal_strlit("mem_free");
    reveal_strlit("m");
    reveal_strlit("str(");
    reveal_strlit("gc.mem_free()");
    let l = "print('machine:' + m)"@;
    assert(l.skip(0) =~= print_of("machine"@, "m"@));
    lemma_print_line(w, e, l, 0, "machine"@, "m"@);
    let k = "print('mem_free:' + str(gc.mem_free()))"@;
    let t = "str("@ + "gc.mem_free()"@ + ")"@;
    assert(k.skip(0) =~= print_of("mem_free"@, t));
    lemma_print_line(w, e, k, 0, "mem_free"@, t);
    lemma_str(w, e, "gc.mem_free()"@);
}

/// The lines that print the sizes of a file system.
pub open spec fn fs_lines(s: Seq<nat>) -> Seq<Seq<char>> {
    seq![
        transfer_laws::key_line("fs_total"@, text::decimal(s[0] * s[2])),
        transfer_laws::key_line("fs_free"@, text::decimal(s[0] * s[4])),
    ]
}

proof fn lemma_statvfs(w: World, e: Env, path: Seq<char>)
    requires
        !path.contains('\''),
        !path.contains('\\'),
        has(e, "os"@),
    ensures
        statvfs_of(path) != "try:"@,
        statvfs_of(path)[0] == 's',
        step(w, e, statvfs_of(path)) == (if w.statvfs.dom().contains(path) {
            Some(Env { s: w.statvfs[path], ..e })
        } else {
            None
        }),
{
    reveal_strlit("s=os.statvfs(");
    reveal_strlit("pass");
    reveal_strlit("gc.collect()");
    reveal_strlit("import ");
    reveal_strlit("m=");
    let l = statvfs_of(path);
    assert(l[0] == 's');
    lemma_no_try(l);
    assert("pass"@[0] == 'p');
    assert("gc.collect()"@[0] == 'g');
    lemma_not_between(l, "import "@, Seq::empty(), 0);
    lemma_not_between(l, "m="@, Seq::empty(), 0);
    lemma_between("s=os.statvfs("@, "'"@ + path + "'"@, ")"@);
    lemma_literal(path);
}

proof fn lemma_product_text(w: World, e: Env, c: char, d: char)
    requires
        '0' <= c <= '9',
        '0' <= d <= '9',
        digit(c) < e.s.len(),
        digit(d) < e.s.len(),
    ensures
        value(w, e, product_of(c, d)) == Some(text::decimal(e.s[digit(c)] * e.s[digit(d)])),
{
    reveal_strlit("s[");
    let t = "s["@ + seq![c] + "]"@ + seq!['*'] + ("s["@ + seq![d] + "]"@);
    assert(t[0] == 's' && t[1] == '[');
    lemma_str(w, e, t);
    lemma_product(w, e, c, d);
}

/// The block that asks for the file system at a path and prints its sizes.
proof fn lemma_fs_block(
    w: World,
    e: Env,
    path: Seq<char>,
    ind: nat,
    a: Seq<char>,
    b: Seq<char>,
    c: Seq<char>,
)
    requires
        !path.contains('\''),
        !path.contains('\\'),
        has(e, "os"@),
        w.statvfs.dom().contains(path) ==> w.statvfs[path].len() >= 5,
        ind <= 2,
        ind < a.len(),
        ind < b.len(),
        ind < c.len(),
        forall|i: int| 0 <= i < ind ==> a[i] == ' ' && b[i] == ' ' && c[i] == ' ',
        a.skip(ind as int) == statvfs_of(path),
        b.skip(ind as int) == print_of("fs_total"@, product_of('0', '2')),
        c.skip(ind as int) == print_of("fs_free"@, product_of('0', '4')),
    ensures
        indent(a) == ind,
        indent(b) == ind,
        indent(c) == ind,
        run(w, e, seq![a, b, c]) == (if w.statvfs.dom().contains(path) {
            (
                Env {
                    s: w.statvfs[path],
                    out: e.out + fs_lines(w.statvfs[path]),
                    ..e
                },
                true,
            )
        } else {
            (e, false)
        }),
{
    reveal_strlit("fs_total");
    reveal_strlit("fs_free");
    lemma_statvfs(w, e, path);
    assert(a.skip(ind as int)[0] == a[ind as int]);
    lemma_bare(a, ind, statvfs_of(path));
    lemma_print_line(w, e, b, ind, "fs_total"@, product_of('0', '2'));
    lemma_print_line(w, e, c, ind, "fs_free"@, product_of('0', '4'));
    assert(seq![a, b, c] =~= seq![a] + seq![b, c]);
    lemma_run_step(w, e, a, seq![b, c]);
    if w.statvfs.dom().contains(path) {
        let s = w.statvfs[path];
        let g = Env { s, ..e };
        lemma_print_line(w, g, b, ind, "fs_total"@, product_of('0', '2'));
        lemma_product_text(w, g, '0', '2');
        let h = Env {
            out: g.out.push(
                transfer_laws::key_line("fs_total"@, text::decimal(s[0] * s[2])),
            ),
            ..g
        };
        lemma_print_line(w, h, c, ind, "fs_free"@, product_of('0', '4'));
        lemma_product_text(w, h, '0', '4');
        lemma_run_two(w, g, b, c);
        assert(h.out.push(
            transfer_laws::key_line("fs_free"@, text::decimal(s[0] * s[4])),
        ) =~= e.out + fs_lines(s));
    }
}

#[verifier::rlimit(40)]
proof fn lemma_flash_lines()
    ensures
        is_line(" s=os.statvfs('/flash')"@),
        is_line(" print('fs_total:' + str(s[0]*s[2]))"@),
        is_line(" print('fs_free:' + str(s[0]*s[4]))"@),
        " s=os.statvfs('/flash')"@[0] == ' ',
        " print('fs_total:' + str(s[0]*s[2]))"@[0] == ' ',
        " print('fs_free:' + str(s[0]*s[4]))"@[0] == ' ',
        " s=os.statvfs('/flash')"@.len() > 1,
        " print('fs_total:' + str(s[0]*s[2]))"@.len() > 1,
        " print('fs_free:' + str(s[0]*s[4]))"@.len() > 1,
        " s=os.statvfs('/flash')"@.skip(1) == statvfs_of("/flash"@),
        " print('fs_total:' + str(s[0]*s[2]))"@.skip(1) == print_of(
            "fs_total"@,
            product_of('0', '2'),
        ),
        " print('fs_free:' + str(s[0]*s[4]))"@.skip(1) == print_of(
            "fs_free"@,
            product_of('0', '4'),
        ),
        !"/flash"@.contains('\''),
        !"/flash"@.contains('\\'),
{
    reveal_strlit(" s=os.statvfs('/flash')");
    reveal_strlit(" print('fs_total:' + str(s[0]*s[2]))");
    reveal_strlit(" print('fs_free:' + str(s[0]*s[4]))");
    reveal_strlit("s=os.statvfs(");
    reveal_strlit("/flash");
    reveal_strlit("print(");
    reveal_strlit("'");
    reveal_strlit(":");
    reveal_strlit(" + ");
    reveal_strlit(")");
    reveal_strlit("str(");
    reveal_strlit("s[");
    reveal_strlit("]");
    reveal_strlit("fs_total");
    reveal_strlit("fs_free");
    assert(" s=os.statvfs('/flash')"@.skip(1) =~= statvfs_of("/flash"@));
    assert(" print('fs_total:' + str(s[0]*s[2]))"@.skip(1) =~= print_of(
        "fs_total"@,
        product_of('0', '2'),
    ));
    assert(" print('fs_free:' + str(s[0]*s[4]))"@.skip(1) =~= print_of(
        "fs_free"@,
        product_of('0', '4'),
    ));
}

#[verifier::rlimit(40)]
proof fn lemma_root_lines()
    ensures
        is_line("  s=os.statvfs('/')"@),
        is_line("  print('fs_total:' + str(s[0]*s[2]))"@),
        is_line("  print('fs_free:' + str(s[0]*s[4]))"@),
        forall|i: int|
            0 <= i < 2 ==> "  s=os.statvfs('/')"@[i] == ' '
                && "  print('fs_total:' + str(s[0]*s[2]))"@[i] == ' '
                && "  print('fs_free:' + str(s[0]*s[4]))"@[i] == ' ',
        "  s=os.statvfs('/')"@.len() > 2,
        "  print('fs_total:' + str(s[0]*s[2]))"@.len() > 2,
        "  print('fs_free:' + str(s[0]*s[4]))"@.len() > 2,
        "  s=os.statvfs('/')"@.skip(2) == statvfs_of("/"@),
        "  print('fs_total:' + str(s[0]*s[2]))"@.skip(2) == print_of(
            "fs_total"@,
            product_of('0', '2'),
        ),
        "  print('fs_free:' + str(s[0]*s[4]))"@.skip(2) == print_of(
            "fs_free"@,
            product_of('0', '4'),
        ),
        !"/"@.contains('\''),
        !"/"@.contains('\\'),
{
    reveal_strlit("  s=os.statvfs('/')");
    reveal_strlit("  print('fs_total:' + str(s[0]*s[2]))");
    reveal_strlit("  print('fs_free:' + str(s[0]*s[4]))");
    reveal_strlit("s=os.statvfs(");
    reveal_strlit("/");
    reveal_strlit("print(");
    reveal_strlit("'");
    reveal_strlit(":");
    reveal_strlit(" + ");
    reveal_strlit(")");
    reveal_strlit("str(");
    reveal_strlit("s[");
    reveal_strlit("]");
    reveal_strlit("fs_total");
    reveal_strlit("fs_free");
    assert("  s=os.statvfs('/')"@.skip(2) =~= statvfs_of("/"@));
    assert("  print('fs_total:' + str(s[0]*s[2]))"@.skip(2) =~= print_of(
        "fs_total"@,
        product_of('0', '2'),
    ));
    assert("  print('fs_free:' + str(s[0]*s[4]))"@.skip(2) =~= print_of(
        "fs_free"@,
        product_of('0', '4'),
    ));
}

proof fn lemma_keyword_lines(w: World, e: Env)
    ensures
        is_line("try:"@) && indent("try:"@) == 0 && bare("try:"@) == "try:"@,
        is_line("except:"@) && indent("except:"@) == 0 && bare("except:"@) == "except:"@,
        is_line(" try:"@) && indent(" try:"@) == 1 && bare(" try:"@) == "try:"@,
        is_line(" except:"@) && indent(" except:"@) == 1 && bare(" except:"@) == "except:"@,
        is_line("  pass"@) && indent("  pass"@) == 2,
        bare("  pass"@) != "try:"@,
        step(w, e, bare("  pass"@)) == Some(e),
{
    reveal_strlit("try:");
    reveal_strlit("except:");
    reveal_strlit(" try:");
    reveal_strlit(" except:");
    reveal_strlit("  pass");
    reveal_strlit("pass");
    assert("try:"@.skip(0) =~= "try:"@);
    lemma_bare("try:"@, 0, "try:"@);
    assert("except:"@.skip(0) =~= "except:"@);
    lemma_bare("except:"@, 0, "except:"@);
    assert(" try:"@.skip(1) =~= "try:"@);
    lemma_bare(" try:"@, 1, "try:"@);
    assert(" except:"@.skip(1) =~= "except:"@);
    lemma_bare(" except:"@, 1, "except:"@);
    assert("  pass"@.skip(2) =~= "pass"@);
    lemma_bare("  pass"@, 2, "pass"@);
    lemma_no_try("pass"@);
}

// ---------------------------------------------------------------------------
// What is known of a device
// ---------------------------------------------------------------------------

/// The file system that the sizes are taken from: the one at `/flash` where there is
/// one, else that at the root.
pub open spec fn main_fs(w: World) -> Option<Seq<nat>> {
    if w.statvfs.dom().contains("/flash"@) {
        Some(w.statvfs["/flash"@])
    } else if w.statvfs.dom().contains("/"@) {
        Some(w.statvfs["/"@])
    } else {
        None
    }
}

/// The machine of a device: what names it, or else the whole implementation.
pub open spec fn machine_of(w: World) -> Seq<char> {
    match w.machine {
        Some(m) => m,
        None => w.implementation,
    }
}

/// What is known of a device: the size of a file system is the size of a block times
/// the number of blocks, and what is free of it the size of a block times the number of
/// free blocks.
pub open spec fn known_of(w: World) -> InfoView {
    InfoView {
        version: w.version,
        platform: w.platform,
        machine: machine_of(w),
        mem_free: Some(w.mem_free as u64),
        fs_total: match main_fs(w) {
            Some(s) => Some((s[0] * s[2]) as u64),
            None => None,
        },
        fs_free: match main_fs(w) {
            Some(s) => Some((s[0] * s[4]) as u64),
            None => None,
        },
    }
}

/// Whether what a device answers can be printed and read: texts without line ends, and
/// numbers of 64 bits. A file system has at least five numbers.
pub open spec fn can_be_told(w: World) -> bool {
    &&& transfer_laws::fills_line(w.version)
    &&& transfer_laws::fills_line(w.platform)
    &&& transfer_laws::fills_line(machine_of(w))
    &&& w.mem_free <= u64::MAX
    &&& forall|p: Seq<char>| #[trigger]
        w.statvfs.dom().contains(p) ==> w.statvfs[p].len() >= 5 && w.statvfs[p][0]
            * w.statvfs[p][2] <= u64::MAX && w.statvfs[p][0] * w.statvfs[p][4] <= u64::MAX
}

/// The lines that print the sizes of the file system.
spec fn fs_part() -> Seq<Seq<char>> {
    seq!["try:"@] + (seq![
        " s=os.statvfs('/flash')"@,
        " print('fs_total:' + str(s[0]*s[2]))"@,
        " print('fs_free:' + str(s[0]*s[4]))"@,
    ] + (seq!["except:"@] + ((seq![" try:"@] + (seq![
        "  s=os.statvfs('/')"@,
        "  print('fs_total:' + str(s[0]*s[2]))"@,
        "  print('fs_free:' + str(s[0]*s[4]))"@,
    ] + (seq![" except:"@] + (seq!["  pass"@] + Seq::empty())))) + Seq::empty())))
}

#[verifier::rlimit(40)]
proof fn lemma_run_fs(w: World, e: Env)
    requires
        can_be_told(w),
        has(e, "os"@),
    ensures
        ({
            let r = run(w, e, fs_part());
            &&& r.1
            &&& r.0.out == e.out + (match main_fs(w) {
                Some(s) => fs_lines(s),
                None => Seq::empty(),
            })
        }),
{
    let none = Seq::<Seq<char>>::empty();
    let flash = seq![
        " s=os.statvfs('/flash')"@,
        " print('fs_total:' + str(s[0]*s[2]))"@,
        " print('fs_free:' + str(s[0]*s[4]))"@,
    ];
    let root = seq![
        "  s=os.statvfs('/')"@,
        "  print('fs_total:' + str(s[0]*s[2]))"@,
        "  print('fs_free:' + str(s[0]*s[4]))"@,
    ];
    let pass = seq!["  pass"@];
    let inner = seq![" try:"@] + (root + (seq![" except:"@] + (pass + none)));
    lemma_keyword_lines(w, e);
    lemma_flash_lines();
    lemma_root_lines();
    assert(w.statvfs.dom().contains("/flash"@) ==> w.statvfs["/flash"@].len() >= 5);
    assert(w.statvfs.dom().contains("/"@) ==> w.statvfs["/"@].len() >= 5);
    lemma_fs_block(w, e, "/flash"@, 1, flash[0], flash[1], flash[2]);
    lemma_fs_block(w, e, "/"@, 2, root[0], root[1], root[2]);
    assert(inside(flash, 0)) by {
        assert forall|i: int| 0 <= i < flash.len() implies indent(#[trigger] flash[i]) > 0 by {
            assert(i == 0 || i == 1 || i == 2);
        }
    }
    assert(inside(root, 1)) by {
        assert forall|i: int| 0 <= i < root.len() implies indent(#[trigger] root[i]) > 1 by {
            assert(i == 0 || i == 1 || i == 2);
        }
    }
    assert(inside(pass, 1));
    assert(inside(inner, 0)) by {
        assert forall|i: int| 0 <= i < inner.len() implies indent(#[trigger] inner[i]) > 0 by {
            if i == 0 {
            } else if i < 4 {
                assert(inner[i] == root[i - 1]);
            } else if i == 4 {
                assert(inner[i] == " except:"@);
            } else {
                assert(inner[i] == "  pass"@);
            }
        }
    }
    lemma_run_step(w, e, "  pass"@, none);
    lemma_run_try(w, e, " try:"@, root, " except:"@, pass, none);
    lemma_run_try(w, e, "try:"@, flash, "except:"@, inner, none);
    assert(pass + none =~= pass);
    assert(e.out + none =~= e.out);
}

/// The lines that print the machine and the free memory, with what follows.
spec fn machine_part() -> Seq<Seq<char>> {
    seq!["try:"@] + (seq![" m=str(sys.implementation._machine)"@] + (seq!["except:"@] + (seq![
        " m=str(sys.implementation)"@,
    ] + (seq!["print('machine:' + m)"@] + (seq!["print('mem_free:' + str(gc.mem_free()))"@]
        + fs_part())))))
}

#[verifier::rlimit(40)]
proof fn lemma_parts()
    ensures
        scripts::info_statements() == seq!["import sys, os, gc"@] + (seq!["gc.collect()"@] + (seq![
            "print('version:' + sys.version)"@,
        ] + (seq!["print('platform:' + sys.platform)"@] + machine_part()))),
        fs_part().len() == 11,
        fs_part()[0] == "try:"@,
        machine_part()[0] == "try:"@,
{
    let all = seq!["import sys, os, gc"@] + (seq!["gc.collect()"@] + (seq![
        "print('version:' + sys.version)"@,
    ] + (seq!["print('platform:' + sys.platform)"@] + machine_part())));
    let ls = scripts::info_statements();
    assert(ls.len() == 21);
    assert(all.len() == 21);
    assert(ls =~= all);
}

#[verifier::rlimit(40)]
proof fn lemma_run_machine(w: World, e: Env)
    requires
        can_be_told(w),
        has(e, "sys"@),
        has(e, "os"@),
        has(e, "gc"@),
        e.collected,
    ensures
        ({
            let r = run(w, e, machine_part());
            &&& r.1
            &&& r.0.out == e.out + seq![
                transfer_laws::key_line("machine"@, machine_of(w)),
                transfer_laws::key_line("mem_free"@, text::decimal(w.mem_free)),
            ] + (match main_fs(w) {
                Some(s) => fs_lines(s),
                None => Seq::empty(),
            })
        }),
{
    let none = Seq::<Seq<char>>::empty();
    let fs = fs_part();
    let memory = seq!["print('mem_free:' + str(gc.mem_free()))"@] + fs;
    let machine = seq!["print('machine:' + m)"@] + memory;
    let asks = seq![" m=str(sys.implementation._machine)"@];
    let other = seq![" m=str(sys.implementation)"@];
    lemma_parts();
    lemma_keyword_lines(w, e);
    lemma_machine_lines(w, e);
    let e5 = Env { m: Some(machine_of(w)), ..e };
    lemma_memory_lines(w, e5);
    let e6 = Env { out: e5.out.push(transfer_laws::key_line("machine"@, machine_of(w))), ..e5 };
    lemma_memory_lines(w, e6);
    let e7 = Env {
        out: e6.out.push(transfer_laws::key_line("mem_free"@, text::decimal(w.mem_free))),
        ..e6
    };
    lemma_run_fs(w, e7);
    assert(memory[0] == "print('mem_free:' + str(gc.mem_free()))"@);
    assert(machine[0] == "print('machine:' + m)"@);
    assert(asks =~= asks + none);
    assert(other =~= other + none);
    lemma_run_step(w, e, " m=str(sys.implementation._machine)"@, none);
    lemma_run_step(w, e, " m=str(sys.implementation)"@, none);
    assert(inside(asks, 0));
    assert(inside(other, 0));
    lemma_run_try(w, e, "try:"@, asks, "except:"@, other, machine);
    lemma_run_step(w, e5, "print('machine:' + m)"@, memory);
    lemma_run_step(w, e6, "print('mem_free:' + str(gc.mem_free()))"@, fs);
    assert(e7.out =~= e.out + seq![
        transfer_laws::key_line("machine"@, machine_of(w)),
        transfer_laws::key_line("mem_free"@, text::decimal(w.mem_free)),
    ]);
}

#[verifier::rlimit(40)]
proof fn lemma_run_info(w: World)
    requires
        can_be_told(w),
    ensures
        ({
            let r = run(w, fresh(), scripts::info_statements());
            &&& r.1
            &&& r.0.out == seq![
                transfer_laws::key_line("version"@, w.version),
                transfer_laws::key_line("platform"@, w.platform),
                transfer_laws::key_line("machine"@, machine_of(w)),
                transfer_laws::key_line("mem_free"@, text::decimal(w.mem_free)),
            ] + (match main_fs(w) {
                Some(s) => fs_lines(s),
                None => Seq::empty(),
            })
        }),
{
    let names = machine_part();
    let platform = seq!["print('platform:' + sys.platform)"@] + names;
    let version = seq!["print('version:' + sys.version)"@] + platform;
    let collect = seq!["gc.collect()"@] + version;
    lemma_parts();
    let e0 = fresh();
    lemma_keyword_lines(w, e0);
    lemma_import_line(w, e0);
    let e1 = step(w, e0, bare("import sys, os, gc"@))->0;
    lemma_collect_line(w, e1);
    let e2 = Env { collected: true, ..e1 };
    lemma_version_lines(w, e2);
    let e3 = Env { out: e2.out.push(transfer_laws::key_line("version"@, w.version)), ..e2 };
    lemma_version_lines(w, e3);
    let e4 = Env { out: e3.out.push(transfer_laws::key_line("platform"@, w.platform)), ..e3 };
    lemma_run_machine(w, e4);
    assert(platform[0] == "print('platform:' + sys.platform)"@);
    assert(version[0] == "print('version:' + sys.version)"@);
    assert(collect[0] == "gc.collect()"@);
    lemma_run_step(w, e0, "import sys, os, gc"@, collect);
    lemma_run_step(w, e1, "gc.collect()"@, version);
    lemma_run_step(w, e2, "print('version:' + sys.version)"@, platform);
    lemma_run_step(w, e3, "print('platform:' + sys.platform)"@, names);
    let fs = match main_fs(w) {
        Some(s) => fs_lines(s),
        None => Seq::empty(),
    };
    assert(e4.out + seq![
        transfer_laws::key_line("machine"@, machine_of(w)),
        transfer_laws::key_line("mem_free"@, text::decimal(w.mem_free)),
    ] + fs =~= seq![
        transfer_laws::key_line("version"@, w.version),
        transfer_laws::key_line("platform"@, w.platform),
        transfer_laws::key_line("machine"@, machine_of(w)),
        transfer_laws::key_line("mem_free"@, text::decimal(w.mem_free)),
    ] + fs);
}

/// Whether texts can all stand on lines of their own.
spec fn are_lines(ls: Seq<Seq<char>>) -> bool {
    forall|i: int| 0 <= i < ls.len() ==> is_line(#[trigger] ls[i])
}

proof fn lemma_more_lines(a: Seq<Seq<char>>, b: Seq<Seq<char>>)
    requires
        are_lines(a),
        are_lines(b),
    ensures
        are_lines(a + b),
{
    assert forall|i: int| 0 <= i < (a + b).len() implies is_line(#[trigger] (a + b)[i]) by {
        if i < a.len() {
            assert((a + b)[i] == a[i]);
        } else {
            assert((a + b)[i] == b[i - a.len()]);
        }
    }
}

proof fn lemma_one_line_more(x: Seq<char>, b: Seq<Seq<char>>)
    requires
        is_line(x),
        are_lines(b),
    ensures
        are_lines(seq![x] + b),
{
    assert(are_lines(seq![x]));
    lemma_more_lines(seq![x], b);
}

/// A device of which nothing is known.
spec fn some_world() -> World {
    World {
        version: Seq::empty(),
        platform: Seq::empty(),
        implementation: Seq::empty(),
        machine: None,
        mem_before: 0,
        mem_free: 0,
        statvfs: Map::empty(),
        stat: Map::empty(),
    }
}

#[verifier::rlimit(40)]
proof fn lemma_fs_are_lines()
    ensures
        are_lines(fs_part()),
{
    let none = Seq::<Seq<char>>::empty();
    let flash = seq![
        " s=os.statvfs('/flash')"@,
        " print('fs_total:' + str(s[0]*s[2]))"@,
        " print('fs_free:' + str(s[0]*s[4]))"@,
    ];
    let root = seq![
        "  s=os.statvfs('/')"@,
        "  print('fs_total:' + str(s[0]*s[2]))"@,
        "  print('fs_free:' + str(s[0]*s[4]))"@,
    ];
    lemma_keyword_lines(some_world(), fresh());
    lemma_flash_lines();
    lemma_root_lines();
    assert(are_lines(flash));
    assert(are_lines(root));
    assert(are_lines(none));
    let pass = seq!["  pass"@] + none;
    lemma_one_line_more("  pass"@, none);
    let handler = seq![" except:"@] + pass;
    lemma_one_line_more(" except:"@, pass);
    lemma_more_lines(root, handler);
    let inner = seq![" try:"@] + (root + handler);
    lemma_one_line_more(" try:"@, root + handler);
    lemma_more_lines(inner, none);
    let outer = seq!["except:"@] + (inner + none);
    lemma_one_line_more("except:"@, inner + none);
    lemma_more_lines(flash, outer);
    lemma_one_line_more("try:"@, flash + outer);
    assert(fs_part() == seq!["try:"@] + (flash + outer));
}

#[verifier::rlimit(40)]
proof fn lemma_machine_are_lines(e: Env)
    requires
        has(e, "sys"@),
        has(e, "gc"@),
    ensures
        are_lines(machine_part()),
{
    let w = some_world();
    let f = Env { collected: true, m: Some(Seq::empty()), ..e };
    lemma_keyword_lines(w, f);
    lemma_machine_lines(w, f);
    lemma_memory_lines(w, f);
    lemma_fs_are_lines();
    let memory = seq!["print('mem_free:' + str(gc.mem_free()))"@] + fs_part();
    lemma_one_line_more("print('mem_free:' + str(gc.mem_free()))"@, fs_part());
    let machine = seq!["print('machine:' + m)"@] + memory;
    lemma_one_line_more("print('machine:' + m)"@, memory);
    let other = seq![" m=str(sys.implementation)"@] + machine;
    lemma_one_line_more(" m=str(sys.implementation)"@, machine);
    let handler = seq!["except:"@] + other;
    lemma_one_line_more("except:"@, other);
    let asks = seq![" m=str(sys.implementation._machine)"@] + handler;
    lemma_one_line_more(" m=str(sys.implementation._machine)"@, handler);
    lemma_one_line_more("try:"@, asks);
    assert(machine_part() == seq!["try:"@] + asks);
}

#[verifier::rlimit(40)]
proof fn lemma_info_is_lines()
    ensures
        text::lines(scripts::info_script()) == scripts::info_statements(),
{
    let w = some_world();
    let e = fresh();
    lemma_import_line(w, e);
    let e1 = step(w, e, bare("import sys, os, gc"@))->0;
    lemma_collect_line(w, e1);
    lemma_version_lines(w, e1);
    lemma_machine_are_lines(e1);
    let platform = seq!["print('platform:' + sys.platform)"@] + machine_part();
    lemma_one_line_more("print('platform:' + sys.platform)"@, machine_part());
    let version = seq!["print('version:' + sys.version)"@] + platform;
    lemma_one_line_more("print('version:' + sys.version)"@, platform);
    let collect = seq!["gc.collect()"@] + version;
    lemma_one_line_more("gc.collect()"@, version);
    lemma_one_line_more("import sys, os, gc"@, collect);
    lemma_parts();
    lemma_lined(scripts::info_statements());
}

/// The lines that a run prints are those that a device with what is known of it
/// prints.
proof fn lemma_info_lines(w: World)
    requires
        can_be_told(w),
    ensures
        transfer_laws::info_lines(known_of(w)) == seq![
            transfer_laws::key_line("version"@, w.version),
            transfer_laws::key_line("platform"@, w.platform),
            transfer_laws::key_line("machine"@, machine_of(w)),
            transfer_laws::key_line("mem_free"@, text::decimal(w.mem_free)),
        ] + (match main_fs(w) {
            Some(s) => fs_lines(s),
            None => Seq::empty(),
        }),
{
    match main_fs(w) {
        Some(s) => {
            assert((s[0] * s[2]) as u64 as nat == s[0] * s[2]);
            assert((s[0] * s[4]) as u64 as nat == s[0] * s[4]);
        },
        None => {},
    }
    assert(transfer_laws::info_lines(known_of(w)) =~= seq![
        transfer_laws::key_line("version"@, w.version),
        transfer_laws::key_line("platform"@, w.platform),
        transfer_laws::key_line("machine"@, machine_of(w)),
        transfer_laws::key_line("mem_free"@, text::decimal(w.mem_free)),
    ] + (match main_fs(w) {
        Some(s) => fs_lines(s),
        None => Seq::empty(),
    }));
}

/// Run on a device, the script that asks it about itself gets to its end, and what it
/// prints reads back as what is known of the device: its version, platform and machine,
/// the memory that is free after a collection, and the size of its file system and what
/// is free of it.
pub proof fn law_info_is_that_of_the_device(w: World)
    requires
        can_be_told(w),
    ensures
        ({
            let r = run_script(w, scripts::info_script());
            &&& r.1
            &&& device::info_in(
                device::printed(
                    Ok(
                        Output {
                            stdout: vstd::utf8::encode_utf8(
                                transfer_laws::printed_lines(r.0.out),
                            ),
                            stderr: Seq::empty(),
                        },
                    ),
                ),
            ) == Ok::<InfoView, ErrorView>(known_of(w))
        }),
{
    lemma_info_is_lines();
    lemma_run_info(w);
    lemma_info_lines(w);
    transfer_laws::law_info_reads_back(known_of(w));
    transfer_laws::law_printed_text_arrives(
        transfer_laws::printed_lines(transfer_laws::info_lines(known_of(w))),
    );
}

// ---------------------------------------------------------------------------
// The status of a file
// ---------------------------------------------------------------------------

/// The status of a file on a device: the mode, the size and the time of the last change
/// are the elements with the numbers zero, six and eight of `os.stat`. The mode of a
/// directory has the number four in its four highest bits of sixteen, and a time of zero
/// is none.
pub open spec fn status_of(w: World, path: Seq<char>) -> StatView {
    let t = w.stat[path];
    StatView {
        path,
        is_dir: (t[0] / 4096) % 16 == 4,
        size: t[6] as u64,
        mtime: if t[8] > 0 {
            Some(t[8] as u64)
        } else {
            None
        },
    }
}

proof fn lemma_dir_mode(mode: u32)
    ensures
        replies::is_dir_mode(mode) <==> (mode / 4096) % 16 == 4,
{
    assert(mode & 0o170000u32 == 0o040000u32 <==> (mode / 4096) % 16 == 4) by (bit_vector);
}

pub proof fn lemma_last_line(l: Seq<char>)
    requires
        l.len() > 0,
        !l.contains('\n'),
    ensures
        text::lines(l) == seq![l],
{
    text::lemma_position(l, '\n');
}

proof fn lemma_element_text(w: World, e: Env, d: char)
    requires
        '0' <= d <= '9',
        digit(d) < e.s.len(),
    ensures
        value(w, e, element_of(d)) == Some(text::decimal(e.s[digit(d)])),
{
    reveal_strlit("s[");
    reveal_strlit("]");
    reveal_strlit("gc.mem_free()");
    let t = "s["@ + seq![d] + "]"@;
    assert(t[0] == 's' && t[1] == '[');
    assert("gc.mem_free()"@[0] == 'g');
    lemma_str(w, e, t);
    lemma_element(e, d);
    text::lemma_position(t, '*');
    assert(text::split_at_first(t, '*') is None) by {
        assert forall|i: int| 0 <= i < t.len() implies t[i] != '*' by {}
    }
}

proof fn lemma_stat_line(w: World, e: Env, path: Seq<char>)
    requires
        has(e, "os"@),
    ensures
        ({
            let l = "s=os.stat("@ + python::str_literal(path) + ")"@;
            &&& is_line(l)
            &&& indent(l) == 0
            &&& bare(l) != "try:"@
            &&& step(w, e, bare(l)) == (if w.stat.dom().contains(path) {
                Some(Env { s: w.stat[path], ..e })
            } else {
                None
            })
        }),
{
    reveal_strlit("s=os.stat(");
    reveal_strlit("s=os.statvfs(");
    reveal_strlit(")");
    reveal_strlit("pass");
    reveal_strlit("gc.collect()");
    reveal_strlit("import ");
    reveal_strlit("m=");
    let lit = python::str_literal(path);
    let body = python::str_body(path);
    let l = "s=os.stat("@ + lit + ")"@;
    python::law_str_literal_reads_back(path);
    transfer_laws::lemma_literal_chars(path);
    assert(l[0] == 's');
    assert(l.skip(0) =~= l);
    lemma_bare(l, 0, l);
    lemma_no_try(l);
    assert("pass"@[0] == 'p');
    assert("gc.collect()"@[0] == 'g');
    lemma_not_between(l, "import "@, Seq::empty(), 0);
    lemma_not_between(l, "m="@, Seq::empty(), 0);
    assert(l[9] == '(');
    lemma_not_between(l, "s=os.statvfs("@, ")"@, 9);
    lemma_between("s=os.stat("@, lit, ")"@);
    assert forall|i: int| 0 <= i < l.len() implies l[i] != '\n' by {
        let j = i - 11;
        if 0 <= j < body.len() {
            assert(l[i] == body[j]);
            assert(body.contains(body[j]));
        }
    }
}

proof fn lemma_stat_prints(w: World, e: Env)
    requires
        e.s.len() >= 9,
    ensures
        is_line("print('mode:' + str(s[0]))"@),
        is_line("print('size:' + str(s[6]))"@),
        is_line("print('mtime:' + str(s[8]))"@),
        indent("print('mode:' + str(s[0]))"@) == 0,
        indent("print('size:' + str(s[6]))"@) == 0,
        indent("print('mtime:' + str(s[8]))"@) == 0,
        bare("print('mode:' + str(s[0]))"@) != "try:"@,
        bare("print('size:' + str(s[6]))"@) != "try:"@,
        bare("print('mtime:' + str(s[8]))"@) != "try:"@,
        step(w, e, bare("print('mode:' + str(s[0]))"@)) == Some(
            Env {
                out: e.out.push(transfer_laws::key_line("mode"@, text::decimal(e.s[0]))),
                ..e
            },
        ),
        step(w, e, bare("print('size:' + str(s[6]))"@)) == Some(
            Env {
                out: e.out.push(transfer_laws::key_line("size"@, text::decimal(e.s[6]))),
                ..e
            },
        ),
        step(w, e, bare("print('mtime:' + str(s[8]))"@)) == Some(
            Env {
                out: e.out.push(transfer_laws::key_line("mtime"@, text::decimal(e.s[8]))),
                ..e
            },
        ),
{
    reveal_strlit("print('mode:' + str(s[0]))");
    reveal_strlit("print('size:' + str(s[6]))");
    reveal_strlit("print('mtime:' + str(s[8]))");
    reveal_strlit("print(");
    reveal_strlit("'");
    reveal_strlit(":");
    reveal_strlit(" + ");
    reveal_strlit(")");
    reveal_strlit("str(");
    reveal_strlit("s[");
    reveal_strlit("]");
    reveal_strlit("mode");
    reveal_strlit("size");
    reveal_strlit("mtime");
    let a = "print('mode:' + str(s[0]))"@;
    assert(a.skip(0) =~= print_of("mode"@, element_of('0')));
    lemma_print_line(w, e, a, 0, "mode"@, element_of('0'));
    lemma_element_text(w, e, '0');
    let b = "print('size:' + str(s[6]))"@;
    assert(b.skip(0) =~= print_of("size"@, element_of('6')));
    lemma_print_line(w, e, b, 0, "size"@, element_of('6'));
    lemma_element_text(w, e, '6');
    let c = "print('mtime:' + str(s[8]))"@;
    assert(c.skip(0) =~= print_of("mtime"@, element_of('8')));
    lemma_print_line(w, e, c, 0, "mtime"@, element_of('8'));
    lemma_element_text(w, e, '8');
}

proof fn lemma_stat_import(w: World, e: Env)
    ensures
        is_line("import os"@),
        indent("import os"@) == 0,
        bare("import os"@) != "try:"@,
        step(w, e, bare("import os"@)) == Some(Env { imported: "os"@, ..e }),
        has(Env { imported: "os"@, ..e }, "os"@),
{
    reveal_strlit("import os");
    reveal_strlit("import ");
    reveal_strlit("os");
    reveal_strlit("pass");
    reveal_strlit("gc.collect()");
    let l = "import os"@;
    assert(l.skip(0) =~= l);
    lemma_bare(l, 0, l);
    lemma_no_try(l);
    assert("pass"@[0] == 'p');
    assert("gc.collect()"@[0] == 'g');
    assert(l =~= "import "@ + "os"@ + Seq::empty());
    lemma_between("import "@, "os"@, Seq::empty());
    assert("os"@.subrange(0, 2) =~= "os"@);
    assert(text::occurs_at("os"@, "os"@, 0));
}

#[verifier::rlimit(40)]
proof fn lemma_stat_is_lines(path: Seq<char>)
    ensures
        text::lines(scripts::stat_script(path)) == seq![
            "import os"@,
            "s=os.stat("@ + python::str_literal(path) + ")"@,
            "print('mode:' + str(s[0]))"@,
            "print('size:' + str(s[6]))"@,
            "print('mtime:' + str(s[8]))"@,
        ],
{
    let a = "import os"@;
    let b = "s=os.stat("@ + python::str_literal(path) + ")"@;
    let c = "print('mode:' + str(s[0]))"@;
    let d = "print('size:' + str(s[6]))"@;
    let l = "print('mtime:' + str(s[8]))"@;
    let w = some_world();
    lemma_stat_import(w, fresh());
    lemma_stat_line(w, Env { imported: "os"@, ..fresh() }, path);
    lemma_stat_prints(w, Env { s: Seq::new(9, |i: int| 0nat), ..fresh() });
    assert(scripts::stat_script(path) =~= a + "\n"@ + (b + "\n"@ + (c + "\n"@ + (d + "\n"@
        + l)))) by {
        reveal_strlit("import os\ns=os.stat(");
        reveal_strlit(
            ")\nprint('mode:' + str(s[0]))\nprint('size:' + str(s[6]))\nprint('mtime:' + str(s[8]))",
        );
        reveal_strlit("import os");
        reveal_strlit("s=os.stat(");
        reveal_strlit(")");
        reveal_strlit("\n");
        reveal_strlit("print('mode:' + str(s[0]))");
        reveal_strlit("print('size:' + str(s[6]))");
        reveal_strlit("print('mtime:' + str(s[8]))");
        assert("import os\ns=os.stat("@ =~= a + "\n"@ + "s=os.stat("@);
        assert(")\nprint('mode:' + str(s[0]))\nprint('size:' + str(s[6]))\nprint('mtime:' + str(s[8]))"@
            =~= ")"@ + "\n"@ + (c + "\n"@ + (d + "\n"@ + l)));
    }
    text::lemma_first_line(a, b + "\n"@ + (c + "\n"@ + (d + "\n"@ + l)));
    text::lemma_first_line(b, c + "\n"@ + (d + "\n"@ + l));
    text::lemma_first_line(c, d + "\n"@ + l);
    text::lemma_first_line(d, l);
    lemma_last_line(l);
    assert(seq![a] + (seq![b] + (seq![c] + (seq![d] + seq![l]))) =~= seq![a, b, c, d, l]);
}

#[verifier::rlimit(40)]
proof fn lemma_run_stat(w: World, path: Seq<char>)
    requires
        w.stat.dom().contains(path) ==> w.stat[path].len() >= 9,
    ensures
        ({
            let r = run(
                w,
                fresh(),
                seq![
                    "import os"@,
                    "s=os.stat("@ + python::str_literal(path) + ")"@,
                    "print('mode:' + str(s[0]))"@,
                    "print('size:' + str(s[6]))"@,
                    "print('mtime:' + str(s[8]))"@,
                ],
            );
            &&& r.1 <==> w.stat.dom().contains(path)
            &&& r.1 ==> r.0.out == seq![
                transfer_laws::key_line("mode"@, text::decimal(w.stat[path][0])),
                transfer_laws::key_line("size"@, text::decimal(w.stat[path][6])),
                transfer_laws::key_line("mtime"@, text::decimal(w.stat[path][8])),
            ]
        }),
{
    let a = "import os"@;
    let b = "s=os.stat("@ + python::str_literal(path) + ")"@;
    let c = "print('mode:' + str(s[0]))"@;
    let d = "print('size:' + str(s[6]))"@;
    let l = "print('mtime:' + str(s[8]))"@;
    let tail = seq![c] + seq![d, l];
    assert(seq![a, b, c, d, l] =~= seq![a] + (seq![b] + tail));
    let e0 = fresh();
    let e1 = Env { imported: "os"@, ..e0 };
    lemma_stat_import(w, e0);
    lemma_stat_line(w, e1, path);
    assert((seq![b] + tail)[0] == b);
    lemma_run_step(w, e0, a, seq![b] + tail);
    lemma_stat_prints(w, Env { s: Seq::new(9, |i: int| 0nat), ..e1 });
    assert(tail[0] == c);
    lemma_run_step(w, e1, b, tail);
    if w.stat.dom().contains(path) {
        let t = w.stat[path];
        let e2 = Env { s: t, ..e1 };
        let e3 = Env {
            out: e2.out.push(transfer_laws::key_line("mode"@, text::decimal(t[0]))),
            ..e2
        };
        let e4 = Env {
            out: e3.out.push(transfer_laws::key_line("size"@, text::decimal(t[6]))),
            ..e3
        };
        lemma_stat_prints(w, e2);
        lemma_stat_prints(w, e3);
        lemma_stat_prints(w, e4);
        assert(seq![d, l][0] == d);
        lemma_run_step(w, e2, c, seq![d, l]);
        lemma_run_two(w, e3, d, l);
    }
}

/// Run on a device, the script that asks for the status of a file raises an exception
/// where the file does not exist. Else it gets to its end, and what it prints reads back
/// as the status of the file.
pub proof fn law_stat_is_that_of_the_file(w: World, path: Seq<char>)
    requires
        w.stat.dom().contains(path) ==> w.stat[path].len() >= 9 && w.stat[path][0] <= u32::MAX
            && w.stat[path][6] <= u64::MAX && w.stat[path][8] <= u64::MAX,
    ensures
        ({
            let r = run_script(w, scripts::stat_script(path));
            &&& r.1 <==> w.stat.dom().contains(path)
            &&& r.1 ==> device::stat_in(
                path,
                device::printed(
                    Ok(
                        Output {
                            stdout: vstd::utf8::encode_utf8(
                                transfer_laws::printed_lines(r.0.out),
                            ),
                            stderr: Seq::empty(),
                        },
                    ),
                ),
            ) == Ok::<StatView, ErrorView>(status_of(w, path))
        }),
{
    lemma_stat_is_lines(path);
    lemma_run_stat(w, path);
    if w.stat.dom().contains(path) {
        let t = w.stat[path];
        let mode = t[0] as u32;
        let size = t[6] as u64;
        let mtime = t[8] as u64;
        let lines = transfer_laws::stat_lines(mode, size, mtime);
        assert(seq![
            transfer_laws::key_line("mode"@, text::decimal(t[0])),
            transfer_laws::key_line("size"@, text::decimal(t[6])),
            transfer_laws::key_line("mtime"@, text::decimal(t[8])),
        ] =~= lines);
        transfer_laws::law_stat_reads_back(path, mode, size, mtime);
        lemma_dir_mode(mode);
        transfer_laws::law_printed_text_arrives(transfer_laws::printed_lines(lines));
    }
}

} // verus!
