//! What holds of the operations on a device: which script each of them executes, what
//! the script means, and what becomes of its output and of its errors.

use vstd::prelude::*;

use crate::connection;
use crate::device;
use crate::directory_laws;
use crate::error::ErrorView;
use crate::exchange_laws;
use crate::hex;
use crate::mirror_laws;
use crate::program_laws;
use crate::python;
use crate::replies;
use crate::replies::InfoView;
use crate::replies::StatFields;
use crate::replies::StatView;
use crate::scripts;
use crate::session;
use crate::session::Output;
use crate::session::SessionView;
use crate::session_laws;
use crate::text;
use crate::text_laws;
use crate::transfer_laws;
use crate::unicode;

verus! {

// ---------------------------------------------------------------------------
// Executing a script, and its output
// ---------------------------------------------------------------------------

/// A script was executed, with an outcome.
pub open spec fn executed(
    pre: SessionView,
    script: Seq<char>,
    post: SessionView,
    out: Result<Output, ErrorView>,
) -> bool {
    session::executes(pre, vstd::utf8::encode_utf8(script), post, out)
}

/// The output of a script that printed one text and wrote another one to its error
/// output.
pub open spec fn output_of(stdout: Seq<char>, stderr: Seq<char>) -> Output {
    Output {
        stdout: vstd::utf8::encode_utf8(stdout),
        stderr: vstd::utf8::encode_utf8(stderr),
    }
}

/// Executing code executes its UTF-8 form, whatever the code is, and gives what that
/// gives.
pub proof fn law_code_is_executed(
    pre: SessionView,
    code: Seq<char>,
    post: SessionView,
    out: Result<Output, ErrorView>,
)
    ensures
        device::runs(pre, code, post, out) <==> executed(pre, code, post, out),
{
}

proof fn lemma_text_of(t: Seq<char>)
    ensures
        unicode::text_of(vstd::utf8::encode_utf8(t)) == t,
        vstd::utf8::encode_utf8(t).len() == 0 <==> t.len() == 0,
{
    vstd::utf8::encode_utf8_valid_utf8(t);
    vstd::utf8::encode_utf8_decode_utf8(t);
    if vstd::utf8::encode_utf8(t).len() == 0 {
        assert(vstd::utf8::encode_utf8(t) =~= vstd::utf8::encode_utf8(Seq::<char>::empty()));
        vstd::utf8::encode_utf8_decode_utf8(Seq::<char>::empty());
    } else if t.len() == 0 {
        assert(t =~= Seq::<char>::empty());
    }
}

/// What a script printed is its result where it wrote no error output. Else the result
/// is an error that tells both texts. Where it could not be executed the result is the
/// error that says why.
pub proof fn law_error_output_is_an_error(stdout: Seq<char>, stderr: Seq<char>, e: ErrorView)
    ensures
        device::printed(Ok(output_of(stdout, stderr))) == (if stderr.len() == 0 {
            Ok::<Seq<char>, ErrorView>(stdout)
        } else {
            Err(ErrorView::Execution { stdout, stderr })
        }),
        device::printed(Err(e)) == Err::<Seq<char>, ErrorView>(e),
{
    lemma_text_of(stdout);
    lemma_text_of(stderr);
}

// ---------------------------------------------------------------------------
// Evaluating an expression
// ---------------------------------------------------------------------------

/// The expression whose value a script prints.
pub open spec fn printed_by(script: Seq<char>) -> Option<Seq<char>> {
    transfer_laws::between(script, "print(repr("@, "))"@)
}

/// An expression is evaluated by a script that prints its value, and the value is the
/// line that was printed, without its end.
pub proof fn law_eval_gives_the_value(
    pre: SessionView,
    expr: Seq<char>,
    post: SessionView,
    r: Result<Seq<char>, ErrorView>,
    v: Seq<char>,
    e: ErrorView,
)
    requires
        v.len() > 0 ==> v.last() != '\n',
    ensures
        printed_by(scripts::eval_script(expr)) == Some(expr),
        device::evaluates(pre, expr, post, r) ==> exists|out: Result<Output, ErrorView>|
         #[trigger]
            executed(pre, scripts::eval_script(expr), post, out) && r == device::value_of(
                device::printed(out),
            ),
        device::value_of(Ok(v + "\r\n"@)) == Ok::<Seq<char>, ErrorView>(v),
        device::value_of(Ok(v)) == Ok::<Seq<char>, ErrorView>(v),
        device::value_of(Err(e)) == Err::<Seq<char>, ErrorView>(e),
{
    program_laws::lemma_between("print(repr("@, expr, "))"@);
    if device::evaluates(pre, expr, post, r) {
        let script = scripts::eval_script(expr);
        let p = choose|p: Result<Seq<char>, ErrorView>| #[trigger]
            device::prints(pre, script, post, p) && r == device::value_of(p);
        let out = choose|out: Result<Output, ErrorView>| #[trigger]
            device::runs(pre, script, post, out) && p == device::printed(out);
        assert(executed(pre, script, post, out));
    }
    reveal_strlit("\r\n");
    let t = v + "\r\n"@;
    assert(t.take(t.len() - 2) =~= v);
    reveal_with_fuel(text::trimmed_end_crlf, 2);
}

// ---------------------------------------------------------------------------
// Running files
// ---------------------------------------------------------------------------

/// Whether a script runs the file at a path as the main module.
pub open spec fn runs_file(script: Seq<char>, path: Seq<char>) -> bool {
    exists|a: Seq<char>, b: Seq<char>|
        script == #[trigger] main_run(a, b) && python::read_str(a) == Some(path)
            && python::read_str(b) == Some(path)
}

/// Runs the file with one literal as the main module, under the name of another
/// literal.
pub open spec fn main_run(a: Seq<char>, b: Seq<char>) -> Seq<char> {
    "exec(open("@ + a + ").read(), {'__name__':'__main__','__file__':"@ + b + "})"@
}

/// A file is run by a script that runs it as the main module.
pub proof fn law_run_file_runs_it(path: Seq<char>)
    ensures
        runs_file(scripts::run_script(path), path),
{
    let lit = python::str_literal(path);
    python::law_str_literal_reads_back(path);
    assert(scripts::run_script(path) == main_run(lit, lit));
}

/// A removal of a file was executed, whatever came of it.
pub open spec fn removal_executed(pre: SessionView, path: Seq<char>, post: SessionView) -> bool {
    exists|script: Seq<char>, out: Result<Output, ErrorView>| #[trigger]
        executed(pre, script, post, out) && mirror_laws::removed_by(script) == Some(path)
}

/// A file was run, with an output.
pub open spec fn file_ran(
    pre: SessionView,
    path: Seq<char>,
    post: SessionView,
    out: Result<Output, ErrorView>,
) -> bool {
    exists|script: Seq<char>| #[trigger]
        executed(pre, script, post, out) && runs_file(script, path)
}

/// Data was written to a file.
pub open spec fn data_written(
    pre: SessionView,
    path: Seq<char>,
    data: Seq<u8>,
    post: SessionView,
) -> bool {
    exists|all: Seq<Seq<char>>| #[trigger]
        mirror_laws::ran(pre, all, post) && mirror_laws::makes(all, path, Some(data))
}

/// A file was written, run and then removed.
pub open spec fn uploaded_run_and_removed(
    pre: SessionView,
    path: Seq<char>,
    data: Seq<u8>,
    post: SessionView,
    out: Output,
) -> bool {
    exists|w: SessionView, m: SessionView|
        #![trigger file_ran(w, path, m, Ok(out))]
        data_written(pre, path, data, w) && file_ran(w, path, m, Ok(out)) && removal_executed(
            m,
            path,
            post,
        )
}

/// A file could not be written, or it was written and could not be run. Nothing was done
/// after that.
pub open spec fn upload_or_run_failed(
    pre: SessionView,
    path: Seq<char>,
    data: Seq<u8>,
    post: SessionView,
    e: ErrorView,
) -> bool {
    ||| device::writes(pre, path, data, post, Err(e))
    ||| exists|w: SessionView| #[trigger]
        file_ran(w, path, post, Err(e)) && data_written(pre, path, data, w)
}

proof fn lemma_removed_by(path: Seq<char>)
    ensures
        mirror_laws::removed_by(scripts::remove_script(path)) == Some(path),
{
    python::law_str_literal_reads_back(path);
    program_laws::lemma_between("import os; os.remove("@, python::str_literal(path), ")"@);
}

/// A script that is uploaded to be run is written, run and then removed, and its output
/// is that of the run. Where it cannot be written or run the error says why, and nothing
/// is done after that.
pub proof fn law_uploaded_script_runs_once(
    pre: SessionView,
    path: Seq<char>,
    data: Seq<u8>,
    post: SessionView,
    r: Result<Output, ErrorView>,
)
    requires
        device::runs_upload(pre, path, data, post, r),
    ensures
        match r {
            Ok(out) => uploaded_run_and_removed(pre, path, data, post, out),
            Err(e) => upload_or_run_failed(pre, path, data, post, e),
        },
{
    let (w, written) = choose|w: SessionView, written: Result<(), ErrorView>| #[trigger]
        device::writes(pre, path, data, w, written) && match written {
            Ok(_) => device::runs_then_removes(w, path, post, r),
            Err(e) => post == w && r == Err::<Output, ErrorView>(e),
        };
    if written is Ok {
        assert(written->Ok_0 == ());
        mirror_laws::law_write_leaves_the_data(pre, path, data, w);
        assert(data_written(pre, path, data, w));
        let script = scripts::run_script(path);
        let m = choose|m: SessionView| #[trigger]
            device::runs(w, script, m, r) && match r {
                Ok(_) => device::removes_or_not(m, path, post),
                Err(_) => post == m,
            };
        law_run_file_runs_it(path);
        assert(executed(w, script, m, r));
        assert(file_ran(w, path, m, r));
        if r is Ok {
            let x = choose|x: Result<(), ErrorView>| #[trigger]
                device::removes(m, path, post, x);
            let gone = scripts::remove_script(path);
            let out = choose|out: Result<Output, ErrorView>| #[trigger]
                device::runs(m, gone, post, out) && x == device::removal(path, out);
            lemma_removed_by(path);
            assert(executed(m, gone, post, out));
            assert(removal_executed(m, path, post));
            assert(file_ran(w, path, m, Ok(r->Ok_0)));
        }
    }
}

// ---------------------------------------------------------------------------
// Removing files and making directories
// ---------------------------------------------------------------------------

/// What becomes of the removal of a file: it succeeds where the script ran without error
/// output. Error output that says that there is no such file gives an error that names
/// the file; any other one is told as it is.
pub proof fn law_removal_outcome(
    pre: SessionView,
    path: Seq<char>,
    post: SessionView,
    r: Result<(), ErrorView>,
    stdout: Seq<char>,
    stderr: Seq<char>,
    e: ErrorView,
)
    ensures
        mirror_laws::removed_by(scripts::remove_script(path)) == Some(path),
        device::removes(pre, path, post, r) ==> exists|out: Result<Output, ErrorView>| #[trigger]
            executed(pre, scripts::remove_script(path), post, out) && r == device::removal(
                path,
                out,
            ),
        device::removal(path, Err(e)) == Err::<(), ErrorView>(e),
        device::removal(path, Ok(output_of(stdout, stderr))) == (if stderr.len() == 0 {
            Ok::<(), ErrorView>(())
        } else if text::has_text(stderr, "ENOENT"@) || text::has_text(stderr, "Errno 2"@) {
            Err(ErrorView::Filesystem("not found: "@ + path))
        } else {
            Err(ErrorView::Execution { stdout, stderr })
        }),
{
    lemma_removed_by(path);
    lemma_text_of(stdout);
    lemma_text_of(stderr);
    if device::removes(pre, path, post, r) {
        let script = scripts::remove_script(path);
        let out = choose|out: Result<Output, ErrorView>| #[trigger]
            device::runs(pre, script, post, out) && r == device::removal(path, out);
        assert(executed(pre, script, post, out));
    }
}

/// Whether an outcome is that of a script of which only success matters.
pub open spec fn succeeded_or_not(out: Result<Output, ErrorView>, r: Result<(), ErrorView>) -> bool {
    match (out, r) {
        (Ok(o), Ok(_)) => o.stderr.len() == 0,
        (Ok(o), Err(e)) => o.stderr.len() > 0 && e == (ErrorView::Execution {
            stdout: unicode::text_of(o.stdout),
            stderr: unicode::text_of(o.stderr),
        }),
        (Err(x), Err(e)) => x == e,
        _ => false,
    }
}

/// A directory is made by a script that tries it and all its parents, and succeeds
/// where the script ran without error output.
pub proof fn law_mkdir_outcome(
    pre: SessionView,
    path: Seq<char>,
    post: SessionView,
    r: Result<(), ErrorView>,
)
    requires
        device::makes_dir(pre, path, post, r),
    ensures
        exists|script: Seq<char>, out: Result<Output, ErrorView>| #[trigger]
            executed(pre, script, post, out) && directory_laws::tried_by(script) == Some(
                directory_laws::tried(path),
            ) && succeeded_or_not(out, r),
{
    let script = scripts::mkdir_script(path);
    directory_laws::law_mkdir_tries_every_prefix(path);
    let p = choose|p: Result<Seq<char>, ErrorView>| #[trigger]
        device::prints(pre, script, post, p) && r == device::done(p);
    let out = choose|out: Result<Output, ErrorView>| #[trigger]
        device::runs(pre, script, post, out) && p == device::printed(out);
    assert(executed(pre, script, post, out));
}

// ---------------------------------------------------------------------------
// Resetting, and going on by hand
// ---------------------------------------------------------------------------

/// Whether a text of bytes ends with others.
pub open spec fn ends_in_bytes(w: Seq<u8>, end: Seq<u8>) -> bool {
    w.len() >= end.len() && w.skip(w.len() - end.len()) == end
}

proof fn lemma_then_exit(pre: SessionView, mid: SessionView, post: SessionView)
    requires
        session_laws::continues(pre, mid),
        session::exits(mid, post, Ok(())),
    ensures
        session_laws::continues(pre, post),
        connection::written(session_laws::since(pre, post)) == connection::written(
            session_laws::since(pre, mid),
        ) + seq![13u8, 2u8],
        !post.in_raw_repl,
{
    exchange_laws::law_leaving_sends_ctrl_b(mid, post, Ok(()));
    assert(session_laws::continues(mid, post));
    session_laws::lemma_written_through(pre, mid, post);
}

/// A reset enters the raw REPL, sends CTRL-D there, and leaves the raw REPL.
pub proof fn law_reset_sends_ctrl_d(pre: SessionView, post: SessionView)
    requires
        device::resets(pre, post, Ok(())),
    ensures
        session_laws::continues(pre, post),
        ends_in_bytes(
            connection::written(session_laws::since(pre, post)),
            seq![4u8, 13u8, 2u8],
        ),
        !post.in_raw_repl,
        exists|a: SessionView| #[trigger] session::enters(pre, false, a, Ok(())),
{
    let (a, ra) = choose|a: SessionView, ra: Result<(), ErrorView>| #[trigger]
        session::enters(pre, false, a, ra) && match ra {
            Err(e) => post == a && Ok::<(), ErrorView>(()) == ra,
            Ok(_) => device::resets_entered(a, post, Ok(())),
        };
    let sent = choose|sent: Result<(), ErrorView>|
        {
            let b = #[trigger] a.then_write(seq![4u8], sent);
            match sent {
                Err(e) => post == b && Ok::<(), ErrorView>(()) == sent,
                Ok(_) => session::exits(b, post, Ok(())),
            }
        };
    assert(sent->Ok_0 == ());
    let b = a.then_write(seq![4u8], Ok(()));
    session_laws::lemma_write_one(a, seq![4u8]);
    session_laws::lemma_written_through(pre, a, b);
    lemma_then_exit(pre, b, post);
    let w = connection::written(session_laws::since(pre, post));
    let before = connection::written(session_laws::since(pre, a));
    assert(w =~= before + seq![4u8, 13u8, 2u8]);
    assert(w.skip(w.len() - 3) =~= seq![4u8, 13u8, 2u8]);
}

/// Going on by hand enters the raw REPL without a restart and leaves it at once.
pub proof fn law_opening_restarts_nothing(pre: SessionView, post: SessionView)
    requires
        device::opens_repl(pre, post, Ok(())),
    ensures
        session_laws::continues(pre, post),
        exists|a: SessionView| #[trigger]
            session::enters(pre, false, a, Ok(())) && connection::written(
                session_laws::since(pre, post),
            ) == connection::written(session_laws::since(pre, a)) + seq![13u8, 2u8],
        !post.in_raw_repl,
{
    let (a, ra) = choose|a: SessionView, ra: Result<(), ErrorView>| #[trigger]
        session::enters(pre, false, a, ra) && match ra {
            Err(e) => post == a && Ok::<(), ErrorView>(()) == ra,
            Ok(_) => session::exits(a, post, Ok(())),
        };
    lemma_then_exit(pre, a, post);
}

/// A reset, and going on by hand, fail only with the error of the last exchange.
pub proof fn law_reset_fails_for_a_reason(pre: SessionView, post: SessionView, e: ErrorView)
    requires
        device::resets(pre, post, Err(e)) || device::opens_repl(pre, post, Err(e)),
    ensures
        post.record.len() > pre.record.len(),
        exchange_laws::failed_with(post.record.last(), e),
{
    let r = Err::<(), ErrorView>(e);
    if device::resets(pre, post, r) {
        let (a, ra) = choose|a: SessionView, ra: Result<(), ErrorView>| #[trigger]
            session::enters(pre, false, a, ra) && match ra {
                Err(x) => post == a && r == ra,
                Ok(_) => device::resets_entered(a, post, r),
            };
        if ra is Err {
            exchange_laws::law_entering_fails_for_a_reason(pre, false, a, e);
        } else {
            let sent = choose|sent: Result<(), ErrorView>|
                {
                    let b = #[trigger] a.then_write(seq![4u8], sent);
                    match sent {
                        Err(x) => post == b && r == sent,
                        Ok(_) => session::exits(b, post, r),
                    }
                };
            let b = a.then_write(seq![4u8], sent);
            if sent is Ok {
                exchange_laws::law_leaving_sends_ctrl_b(b, post, r);
            }
        }
    } else {
        let (a, ra) = choose|a: SessionView, ra: Result<(), ErrorView>| #[trigger]
            session::enters(pre, false, a, ra) && match ra {
                Err(x) => post == a && r == ra,
                Ok(_) => session::exits(a, post, r),
            };
        if ra is Err {
            exchange_laws::law_entering_fails_for_a_reason(pre, false, a, e);
        } else {
            exchange_laws::law_leaving_sends_ctrl_b(a, post, r);
        }
    }
}

// ---------------------------------------------------------------------------
// Reading files
// ---------------------------------------------------------------------------

/// What `binascii.hexlify` makes of bytes: two digits for each byte, the high one first,
/// with lower-case letters.
pub open spec fn hexlify(data: Seq<u8>) -> Seq<char> {
    Seq::new(
        2 * data.len(),
        |i: int|
            "0123456789abcdef"@[if i % 2 == 0 {
                data[i / 2] as int / 16
            } else {
                data[i / 2] as int % 16
            }],
    )
}

/// Bytes are written in hexadecimal as a device writes them.
pub proof fn law_hex_is_that_of_the_device(data: Seq<u8>)
    ensures
        hex::hex_text(data) == hexlify(data),
    decreases data.len(),
{
    reveal_strlit("0123456789abcdef");
    if data.len() == 0 {
        assert(hex::hex_text(data) =~= hexlify(data));
    } else {
        let rest = data.skip(1);
        law_hex_is_that_of_the_device(rest);
        let all = hexlify(data);
        let later = hexlify(rest);
        assert(hex::hex_byte(data[0]).len() == 2);
        assert forall|i: int| 0 <= i < all.len() implies all[i] == (hex::hex_byte(data[0])
            + later)[i] by {
            if i >= 2 {
                assert(rest[(i - 2) / 2] == data[i / 2]);
                assert((i - 2) % 2 == i % 2);
            } else if i == 0 {
                lemma_digit(data[0] as int / 16);
            } else {
                lemma_digit(data[0] as int % 16);
            }
        }
        assert(hex::hex_text(data) =~= all);
    }
}

proof fn lemma_digit(v: int)
    requires
        0 <= v < 16,
    ensures
        "0123456789abcdef"@[v] == hex::hex_digit(v),
{
    reveal_strlit("0123456789abcdef");
}

/// The path that a script reads and how many bytes it reads at a time, if it is one
/// that prints a file in hexadecimal: it opens the file, and until nothing more comes
/// reads that many bytes and prints them on a line.
pub open spec fn read_by(script: Seq<char>) -> Option<(Seq<char>, nat)> {
    let ls = text::lines(script);
    if ls.len() == 7 && ls[0] == "import binascii"@ && ls[2] == "while True:"@ && ls[4]
        == "  if not __d:break"@ && ls[5] == "  print(binascii.hexlify(__d).decode())"@ && ls[6]
        == "__f.close()"@ {
        match (
            transfer_laws::between(ls[1], "__f=open("@, ",'rb')"@),
            transfer_laws::between(ls[3], "  __d=__f.read("@, ")"@),
        ) {
            (Some(lit), Some(n)) => match (python::read_str(lit), text::digits_value(n)) {
                (Some(path), Some(size)) => Some((path, size)),
                _ => None,
            },
            _ => None,
        }
    } else {
        None
    }
}

/// What such a script prints of a file.
pub open spec fn printed_in_parts(data: Seq<u8>, n: nat) -> Seq<char>
    decreases data.len(),
{
    if data.len() == 0 || n == 0 {
        Seq::empty()
    } else if data.len() <= n {
        transfer_laws::printed_line(hexlify(data))
    } else {
        transfer_laws::printed_line(hexlify(data.take(n as int))) + printed_in_parts(
            data.skip(n as int),
            n,
        )
    }
}

#[verifier::rlimit(40)]
proof fn lemma_read_lines(path: Seq<char>)
    ensures
        text::lines(scripts::read_script(path)) == seq![
            "import binascii"@,
            "__f=open("@ + python::str_literal(path) + ",'rb')"@,
            "while True:"@,
            "  __d=__f.read("@ + text::decimal(128) + ")"@,
            "  if not __d:break"@,
            "  print(binascii.hexlify(__d).decode())"@,
            "__f.close()"@,
        ],
{
    let a = "import binascii"@;
    let b = "__f=open("@ + python::str_literal(path) + ",'rb')"@;
    let c = "while True:"@;
    let d = "  __d=__f.read("@ + text::decimal(128) + ")"@;
    let e = "  if not __d:break"@;
    let f = "  print(binascii.hexlify(__d).decode())"@;
    let g = "__f.close()"@;
    reveal_strlit("import binascii");
    reveal_strlit("while True:");
    reveal_strlit("  if not __d:break");
    reveal_strlit("  print(binascii.hexlify(__d).decode())");
    reveal_strlit("__f.close()");
    reveal_strlit("__f=open(");
    reveal_strlit(",'rb')");
    reveal_strlit("  __d=__f.read(");
    reveal_strlit(")");
    reveal_strlit("\n");
    let n = "\n"@;
    let t5 = f + n + g;
    let t4 = e + n + t5;
    let t3 = d + n + t4;
    let t2 = c + n + t3;
    let t1 = b + n + t2;
    let t0 = a + n + t1;
    assert(scripts::read_script(path) =~= t0) by {
        reveal_strlit("import binascii\n__f=open(");
        reveal_strlit(",'rb')\nwhile True:\n  __d=__f.read(");
        reveal_strlit(
            ")\n  if not __d:break\n  print(binascii.hexlify(__d).decode())\n__f.close()",
        );
        assert("import binascii\n__f=open("@ =~= a + n + "__f=open("@);
        assert(",'rb')\nwhile True:\n  __d=__f.read("@ =~= ",'rb')"@ + n + (c + n
            + "  __d=__f.read("@));
        assert(")\n  if not __d:break\n  print(binascii.hexlify(__d).decode())\n__f.close()"@
            =~= ")"@ + n + t4);
    }
    let body = python::str_body(path);
    transfer_laws::lemma_literal_chars(path);
    assert forall|i: int| 0 <= i < b.len() implies b[i] != '\n' by {
        let j = i - 10;
        if 0 <= j < body.len() {
            assert(b[i] == body[j]);
            assert(body.contains(body[j]));
        }
    }
    let num = text::decimal(128);
    transfer_laws::lemma_decimal_fills_line(128);
    assert forall|i: int| 0 <= i < d.len() implies d[i] != '\n' by {
        let j = i - 15;
        if 0 <= j < num.len() {
            assert(d[i] == num[j]);
            assert(num.contains(num[j]));
        }
    }
    text::lemma_first_line(a, t1);
    text::lemma_first_line(b, t2);
    text::lemma_first_line(c, t3);
    text::lemma_first_line(d, t4);
    text::lemma_first_line(e, t5);
    text::lemma_first_line(f, g);
    program_laws::lemma_last_line(g);
    assert(seq![a] + (seq![b] + (seq![c] + (seq![d] + (seq![e] + (seq![f] + seq![g])))))
        =~= seq![a, b, c, d, e, f, g]);
}

proof fn lemma_parts_read_back(data: Seq<u8>, n: nat)
    requires
        n > 0,
    ensures
        replies::download(text::lines(printed_in_parts(data, n))) == Ok::<Seq<u8>, ErrorView>(data),
    decreases data.len(),
{
    if data.len() == 0 {
        assert(data =~= Seq::empty());
    } else {
        let chunk = if data.len() <= n {
            data
        } else {
            data.take(n as int)
        };
        let rest = if data.len() <= n {
            Seq::empty()
        } else {
            data.skip(n as int)
        };
        law_hex_is_that_of_the_device(chunk);
        transfer_laws::lemma_hex_line(chunk);
        lemma_parts_read_back(rest, n);
        transfer_laws::lemma_first_printed_line(hexlify(chunk), printed_in_parts(rest, n));
        assert(printed_in_parts(data, n) =~= transfer_laws::printed_line(hexlify(chunk))
            + printed_in_parts(rest, n));
        transfer_laws::lemma_download_first(
            chunk,
            text::lines(printed_in_parts(rest, n)),
            rest,
        );
        assert(chunk + rest =~= data);
    }
}

/// A file is read by a script that prints it in hexadecimal, part by part, and what the
/// script prints of the file reads back as its bytes. An error is told as it is.
pub proof fn law_reading_gives_the_file(path: Seq<char>, data: Seq<u8>, e: ErrorView)
    ensures
        ({
            let by = read_by(scripts::read_script(path));
            &&& by matches Some((p, n))
            &&& p == path
            &&& n == 128
            &&& device::contents(
                device::printed(Ok(output_of(printed_in_parts(data, n), Seq::empty()))),
            ) == Ok::<Seq<u8>, ErrorView>(data)
        }),
        device::contents(Err(e)) == Err::<Seq<u8>, ErrorView>(e),
{
    let lit = python::str_literal(path);
    lemma_read_lines(path);
    program_laws::lemma_between("__f=open("@, lit, ",'rb')"@);
    program_laws::lemma_between("  __d=__f.read("@, text::decimal(128), ")"@);
    python::law_str_literal_reads_back(path);
    text::law_decimal_reads_back(128, 128);
    assert(text::digits_value(text::decimal(128)) == Some(128nat)) by {
        text::lemma_decimal_digits(128);
    }
    lemma_parts_read_back(data, 128);
    law_error_output_is_an_error(printed_in_parts(data, 128), Seq::empty(), e);
}

/// A file that is read as text gives the text whose UTF-8 form it holds.
pub proof fn law_cat_gives_the_text(t: Seq<char>, e: ErrorView)
    ensures
        device::as_text(Ok(vstd::utf8::encode_utf8(t))) == Ok::<Seq<char>, ErrorView>(t),
        device::as_text(Err(e)) == Err::<Seq<char>, ErrorView>(e),
{
    lemma_text_of(t);
}

// ---------------------------------------------------------------------------
// Listing directories
// ---------------------------------------------------------------------------

/// The path that a script lists, if it is one that prints the names in a directory in
/// hexadecimal, each on a line.
pub open spec fn listed_by(script: Seq<char>) -> Option<Seq<char>> {
    let ls = text::lines(script);
    if ls.len() == 3 && ls[0] == "import os,binascii"@ && ls[2]
        == " print(binascii.hexlify(__n.encode()).decode())"@ {
        match transfer_laws::between(ls[1], "for __n in os.listdir("@, "):"@) {
            Some(lit) => python::read_str(lit),
            None => None,
        }
    } else {
        None
    }
}

/// The lines that such a script prints.
pub open spec fn name_lines(names: Seq<Seq<char>>) -> Seq<Seq<char>> {
    Seq::new(names.len(), |i: int| hexlify(vstd::utf8::encode_utf8(names[i])))
}

proof fn lemma_name_lines(names: Seq<Seq<char>>)
    ensures
        transfer_laws::printed_lines(name_lines(names)) == transfer_laws::printed_names(names),
    decreases names.len(),
{
    if names.len() > 0 {
        law_hex_is_that_of_the_device(vstd::utf8::encode_utf8(names[0]));
        lemma_name_lines(names.skip(1));
        assert(name_lines(names).skip(1) =~= name_lines(names.skip(1)));
        assert(name_lines(names)[0] == hexlify(vstd::utf8::encode_utf8(names[0])));
    }
}

#[verifier::rlimit(40)]
proof fn lemma_list_lines(path: Seq<char>)
    ensures
        text::lines(scripts::list_script(path)) == seq![
            "import os,binascii"@,
            "for __n in os.listdir("@ + python::str_literal(path) + "):"@,
            " print(binascii.hexlify(__n.encode()).decode())"@,
        ],
{
    let a = "import os,binascii"@;
    let b = "for __n in os.listdir("@ + python::str_literal(path) + "):"@;
    let c = " print(binascii.hexlify(__n.encode()).decode())"@;
    let n = "\n"@;
    reveal_strlit("import os,binascii");
    reveal_strlit("for __n in os.listdir(");
    reveal_strlit("):");
    reveal_strlit(" print(binascii.hexlify(__n.encode()).decode())");
    reveal_strlit("\n");
    assert(scripts::list_script(path) =~= a + n + (b + n + c)) by {
        reveal_strlit("import os,binascii\nfor __n in os.listdir(");
        reveal_strlit("):\n print(binascii.hexlify(__n.encode()).decode())");
        assert("import os,binascii\nfor __n in os.listdir("@ =~= a + n
            + "for __n in os.listdir("@);
        assert("):\n print(binascii.hexlify(__n.encode()).decode())"@ =~= "):"@ + n + c);
    }
    let body = python::str_body(path);
    transfer_laws::lemma_literal_chars(path);
    assert forall|i: int| 0 <= i < b.len() implies b[i] != '\n' by {
        let j = i - 23;
        if 0 <= j < body.len() {
            assert(b[i] == body[j]);
            assert(body.contains(body[j]));
        }
    }
    text::lemma_first_line(a, b + n + c);
    text::lemma_first_line(b, c);
    program_laws::lemma_last_line(c);
    assert(seq![a] + (seq![b] + seq![c]) =~= seq![a, b, c]);
}

/// A directory is listed by a script that prints the names in it in hexadecimal, and
/// what the script prints reads back as the names. A name is never empty. An error is
/// told as it is.
pub proof fn law_listing_gives_the_names(path: Seq<char>, names: Seq<Seq<char>>, e: ErrorView)
    requires
        forall|i: int| 0 <= i < names.len() ==> (#[trigger] names[i]).len() > 0,
    ensures
        listed_by(scripts::list_script(path)) == Some(path),
        device::names(
            device::printed(
                Ok(output_of(transfer_laws::printed_lines(name_lines(names)), Seq::empty())),
            ),
        ) == Ok::<Seq<Seq<char>>, ErrorView>(names),
        device::names(Err(e)) == Err::<Seq<Seq<char>>, ErrorView>(e),
{
    lemma_list_lines(path);
    python::law_str_literal_reads_back(path);
    program_laws::lemma_between("for __n in os.listdir("@, python::str_literal(path), "):"@);
    lemma_name_lines(names);
    transfer_laws::law_listing_reads_back(names);
    law_error_output_is_an_error(transfer_laws::printed_names(names), Seq::empty(), e);
}

// ---------------------------------------------------------------------------
// Which script an operation executes
// ---------------------------------------------------------------------------

/// Reading a file executes the script for it, and gives what its output reads as.
pub proof fn law_read_executes_its_script(
    pre: SessionView,
    path: Seq<char>,
    post: SessionView,
    r: Result<Seq<u8>, ErrorView>,
)
    requires
        device::reads(pre, path, post, r),
    ensures
        exists|out: Result<Output, ErrorView>| #[trigger]
            executed(pre, scripts::read_script(path), post, out) && r == device::contents(
                device::printed(out),
            ),
{
    let script = scripts::read_script(path);
    let p = choose|p: Result<Seq<char>, ErrorView>| #[trigger]
        device::prints(pre, script, post, p) && r == device::contents(p);
    let out = choose|out: Result<Output, ErrorView>| #[trigger]
        device::runs(pre, script, post, out) && p == device::printed(out);
    assert(executed(pre, script, post, out));
}

/// Listing a directory executes the script for it, and gives what its output reads as.
pub proof fn law_list_executes_its_script(
    pre: SessionView,
    path: Seq<char>,
    post: SessionView,
    r: Result<Seq<Seq<char>>, ErrorView>,
)
    requires
        device::lists(pre, path, post, r),
    ensures
        exists|out: Result<Output, ErrorView>| #[trigger]
            executed(pre, scripts::list_script(path), post, out) && r == device::names(
                device::printed(out),
            ),
{
    let script = scripts::list_script(path);
    let p = choose|p: Result<Seq<char>, ErrorView>| #[trigger]
        device::prints(pre, script, post, p) && r == device::names(p);
    let out = choose|out: Result<Output, ErrorView>| #[trigger]
        device::runs(pre, script, post, out) && p == device::printed(out);
    assert(executed(pre, script, post, out));
}

/// Asking for the status of a file executes the script for it, and gives what its output
/// reads as. An error is told as it is.
pub proof fn law_stat_executes_its_script(
    pre: SessionView,
    path: Seq<char>,
    post: SessionView,
    r: Result<StatView, ErrorView>,
    e: ErrorView,
)
    requires
        device::stats(pre, path, post, r),
    ensures
        exists|out: Result<Output, ErrorView>| #[trigger]
            executed(pre, scripts::stat_script(path), post, out) && r == device::stat_in(
                path,
                device::printed(out),
            ),
        device::stat_in(path, Err(e)) == Err::<StatView, ErrorView>(e),
{
    let script = scripts::stat_script(path);
    let p = choose|p: Result<Seq<char>, ErrorView>| #[trigger]
        device::prints(pre, script, post, p) && r == device::stat_in(path, p);
    let out = choose|out: Result<Output, ErrorView>| #[trigger]
        device::runs(pre, script, post, out) && p == device::printed(out);
    assert(executed(pre, script, post, out));
}

/// Asking a device about itself executes the script for it, and gives what its output
/// reads as. An error is told as it is.
pub proof fn law_info_executes_its_script(
    pre: SessionView,
    post: SessionView,
    r: Result<InfoView, ErrorView>,
    e: ErrorView,
)
    requires
        device::informs(pre, post, r),
    ensures
        exists|out: Result<Output, ErrorView>| #[trigger]
            executed(pre, scripts::info_script(), post, out) && r == device::info_in(
                device::printed(out),
            ),
        device::info_in(Err(e)) == Err::<InfoView, ErrorView>(e),
{
    let script = scripts::info_script();
    let p = choose|p: Result<Seq<char>, ErrorView>| #[trigger]
        device::prints(pre, script, post, p) && r == device::info_in(p);
    let out = choose|out: Result<Output, ErrorView>| #[trigger]
        device::runs(pre, script, post, out) && p == device::printed(out);
    assert(executed(pre, script, post, out));
}

// ---------------------------------------------------------------------------
// Reading lines with a key and a value
// ---------------------------------------------------------------------------

/// The key and the value on a line are what stands before and behind its first colon,
/// without the white space around the line. A line without a colon has none.
pub proof fn law_keys_stand_before_the_colon(
    a: Seq<char>,
    key: Seq<char>,
    value: Seq<char>,
    z: Seq<char>,
)
    requires
        text_laws::is_blank(a),
        text_laws::is_blank(z),
        !key.contains(':'),
        text_laws::is_tight(key + seq![':'] + value),
        text_laws::is_tight(key),
    ensures
        replies::key_value(a + (key + seq![':'] + value) + z) == Some((key, value)),
        replies::key_value(a + key + z) is None,
{
    let line = key + seq![':'] + value;
    text_laws::law_trimming_leaves_the_text(a, line, z);
    text_laws::law_trimming_leaves_the_text(a, key, z);
    assert(line[key.len() as int] == ':');
    assert forall|j: int| 0 <= j < key.len() implies line[j] != ':' by {
        assert(line[j] == key[j]);
        assert(key.contains(key[j]));
    }
    text::lemma_position_unique(line, ':', key.len());
    assert(line.take(key.len() as int) =~= key);
    assert(line.skip(key.len() as int + 1) =~= value);
    text::lemma_position(key, ':');
    if text::position(key, ':') is Some {
        assert(key.contains(key[text::position(key, ':')->0 as int]));
    }
}

/// What one more line says of a file: the last line with a key counts. A mode or a size
/// that cannot be read counts as zero, a time that cannot be read or is zero does not
/// count, and any other line does not matter.
pub proof fn law_status_lines(ls: Seq<Seq<char>>, line: Seq<char>)
    ensures
        ({
            let f = replies::stat_fields(ls);
            let g = replies::stat_fields(ls.push(line));
            match replies::key_value(line) {
                Some((key, value)) => {
                    &&& g.mode == (if key == "mode"@ {
                        match replies::u32_value(value) {
                            Some(n) => n,
                            None => 0,
                        }
                    } else {
                        f.mode
                    })
                    &&& g.size == (if key == "size"@ {
                        match replies::u64_value(value) {
                            Some(n) => n,
                            None => 0,
                        }
                    } else {
                        f.size
                    })
                    &&& g.mtime == (if key == "mtime"@ && replies::u64_value(value) is Some
                        && replies::u64_value(value)->0 != 0 {
                        replies::u64_value(value)
                    } else {
                        f.mtime
                    })
                },
                None => g == f,
            }
        }),
        replies::stat_fields(Seq::empty()) == (StatFields { mode: 0, size: 0, mtime: None }),
{
    assert(ls.push(line).drop_last() =~= ls);
    reveal_strlit("mode");
    reveal_strlit("size");
    reveal_strlit("mtime");
    assert("mode"@[0] == 'm' && "size"@[0] == 's' && "mtime"@.len() == 5);
}

/// What one more line says of a device: the last line with a key counts, a number that
/// cannot be read is unknown, and any other line does not matter.
pub proof fn law_info_lines(ls: Seq<Seq<char>>, line: Seq<char>)
    ensures
        ({
            let f = replies::info_of(ls);
            let g = replies::info_of(ls.push(line));
            match replies::key_value(line) {
                Some((key, value)) => {
                    &&& g.version == (if key == "version"@ {
                        value
                    } else {
                        f.version
                    })
                    &&& g.platform == (if key == "platform"@ {
                        value
                    } else {
                        f.platform
                    })
                    &&& g.machine == (if key == "machine"@ {
                        value
                    } else {
                        f.machine
                    })
                    &&& g.mem_free == (if key == "mem_free"@ {
                        replies::u64_value(value)
                    } else {
                        f.mem_free
                    })
                    &&& g.fs_total == (if key == "fs_total"@ {
                        replies::u64_value(value)
                    } else {
                        f.fs_total
                    })
                    &&& g.fs_free == (if key == "fs_free"@ {
                        replies::u64_value(value)
                    } else {
                        f.fs_free
                    })
                },
                None => g == f,
            }
        }),
        replies::info_of(Seq::empty()) == (InfoView {
            version: Seq::empty(),
            platform: Seq::empty(),
            machine: Seq::empty(),
            mem_free: None,
            fs_total: None,
            fs_free: None,
        }),
{
    assert(ls.push(line).drop_last() =~= ls);
    reveal_strlit("version");
    reveal_strlit("platform");
    reveal_strlit("machine");
    reveal_strlit("mem_free");
    reveal_strlit("fs_total");
    reveal_strlit("fs_free");
    assert("version"@[0] == 'v' && "platform"@[0] == 'p' && "machine"@[1] == 'a');
    assert("mem_free"@[1] == 'e' && "fs_total"@[3] == 't' && "fs_free"@[3] == 'f');
    assert("fs_total"@[0] == 'f' && "fs_free"@[0] == 'f' && "mem_free"@[0] == 'm');
    assert("machine"@[0] == 'm');
}

/// What one more line says of a file that is printed in hexadecimal, or of a directory:
/// a blank line does not matter, and the first line that is not hexadecimal is the error.
pub proof fn law_hexadecimal_lines(ls: Seq<Seq<char>>, line: Seq<char>)
    ensures
        match replies::download(ls) {
            Ok(data) => replies::download(ls.push(line)) == (if text_laws::is_blank(line) {
                Ok::<Seq<u8>, ErrorView>(data)
            } else {
                match hex::hex_bytes(line) {
                    Ok(more) => Ok(data + more),
                    Err(e) => Err(e),
                }
            }),
            Err(e) => replies::download(ls.push(line)) == Err::<Seq<u8>, ErrorView>(e),
        },
        match replies::listing(ls) {
            Ok(names) => replies::listing(ls.push(line)) == (if text_laws::is_blank(line) {
                Ok::<Seq<Seq<char>>, ErrorView>(names)
            } else {
                match hex::hex_string(line) {
                    Ok(name) => Ok(names.push(name)),
                    Err(e) => Err(e),
                }
            }),
            Err(e) => replies::listing(ls.push(line)) == Err::<Seq<Seq<char>>, ErrorView>(e),
        },
{
    let none = Seq::<char>::empty();
    assert(ls.push(line).drop_last() =~= ls);
    text::lemma_trimmed(line);
    if text_laws::is_blank(line) {
        text_laws::law_trimming_leaves_the_text(line, none, none);
        assert(line + none + none =~= line);
    } else if text::trimmed(line).len() == 0 {
        text_laws::lemma_blank(line);
    }
}

} // verus!
