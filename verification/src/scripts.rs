//! The Python scripts that the library runs on a device.

use vstd::prelude::*;
use vstd::slice::slice_subrange;

use crate::hex;
use crate::hex::push_hex;
use crate::python;
use crate::python::py_str_repr;
use crate::text;
use crate::text::to_decimal;

verus! {

/// How many bytes one statement of a script writes or reads.
pub const CHUNK_BYTES: usize = 128;

/// How many chunks one script writes.
pub const BATCH_CHUNKS: usize = 16;

/// How many bytes one script writes.
pub const BATCH_BYTES: usize = 2048;

/// Prints the value of an expression.
pub open spec fn eval_script(expr: Seq<char>) -> Seq<char> {
    "print(repr("@ + expr + "))"@
}

/// Runs a file as the main module.
pub open spec fn run_script(path: Seq<char>) -> Seq<char> {
    "exec(open("@ + python::str_literal(path)
        + ").read(), {'__name__':'__main__','__file__':"@ + python::str_literal(path) + "})"@
}

/// Opens a file for writing.
pub open spec fn open_line(path: Seq<char>) -> Seq<char> {
    "__f=open("@ + python::str_literal(path) + ",'wb')"@
}

/// Writes bytes to the open file.
pub open spec fn write_line(chunk: Seq<u8>) -> Seq<char> {
    "__f.write(bytes.fromhex('"@ + hex::hex_text(chunk) + "'))"@
}

/// Closes the open file.
pub open spec fn close_lines() -> Seq<char> {
    "__f.flush()\n__f.close()\n"@
}

/// Creates an empty file.
pub open spec fn create_script(path: Seq<char>) -> Seq<char> {
    open_line(path) + "\n"@ + close_lines()
}

/// The first `n` bytes, or all of them.
pub open spec fn head(data: Seq<u8>, n: nat) -> Seq<u8> {
    if data.len() <= n {
        data
    } else {
        data.take(n as int)
    }
}

/// What follows the first `n` bytes.
pub open spec fn tail(data: Seq<u8>, n: nat) -> Seq<u8> {
    if data.len() <= n {
        Seq::empty()
    } else {
        data.skip(n as int)
    }
}

/// The statements that write bytes, a chunk each.
pub open spec fn write_lines(data: Seq<u8>) -> Seq<char>
    decreases data.len(),
{
    if data.len() == 0 {
        Seq::empty()
    } else {
        write_line(head(data, CHUNK_BYTES as nat)) + "\n"@ + write_lines(
            tail(data, CHUNK_BYTES as nat),
        )
    }
}

/// One script of an upload: the first one opens the file, the last one closes it.
pub open spec fn upload_script(
    path: Seq<char>,
    batch: Seq<u8>,
    first: bool,
    last: bool,
) -> Seq<char> {
    let opening = if first {
        open_line(path) + "\n"@
    } else {
        Seq::empty()
    };
    let closing = if last {
        close_lines()
    } else {
        Seq::empty()
    };
    opening + write_lines(batch) + closing
}

/// The scripts that write what is left of an upload, a batch each.
pub open spec fn upload_rest(path: Seq<char>, data: Seq<u8>, first: bool) -> Seq<Seq<char>>
    decreases data.len(),
{
    if data.len() == 0 {
        Seq::empty()
    } else {
        let rest = tail(data, BATCH_BYTES as nat);
        seq![upload_script(path, head(data, BATCH_BYTES as nat), first, rest.len() == 0)]
            + upload_rest(path, rest, false)
    }
}

/// The scripts that write bytes to a file.
pub open spec fn upload(path: Seq<char>, data: Seq<u8>) -> Seq<Seq<char>> {
    upload_rest(path, data, true)
}

/// Prints the bytes of a file in hexadecimal, a chunk on each line.
pub open spec fn read_script(path: Seq<char>) -> Seq<char> {
    "import binascii\n__f=open("@ + python::str_literal(path)
        + ",'rb')\nwhile True:\n  __d=__f.read("@ + text::decimal(CHUNK_BYTES as nat)
        + ")\n  if not __d:break\n  print(binascii.hexlify(__d).decode())\n__f.close()"@
}

/// Prints the names in a directory in hexadecimal, one on each line.
pub open spec fn list_script(path: Seq<char>) -> Seq<char> {
    "import os,binascii\nfor __n in os.listdir("@ + python::str_literal(path)
        + "):\n print(binascii.hexlify(__n.encode()).decode())"@
}

/// Removes a file.
pub open spec fn remove_script(path: Seq<char>) -> Seq<char> {
    "import os; os.remove("@ + python::str_literal(path) + ")"@
}

/// Creates a directory and its parents, where they do not exist.
pub open spec fn mkdir_script(path: Seq<char>) -> Seq<char> {
    "import os\np="@ + python::str_literal(path)
        + "\nfor i in range(1,len(p.split('/'))+1):\n d='/'.join(p.split('/')[:i]) or '/'\n try: os.mkdir(d)\n except: pass"@
}

/// Several lines, each with its line end.
pub open spec fn lined(ls: Seq<Seq<char>>) -> Seq<char>
    decreases ls.len(),
{
    if ls.len() == 0 {
        Seq::empty()
    } else {
        ls[0] + "\n"@ + lined(ls.skip(1))
    }
}

/// The statements that print what is known of a device, one `key:value` on each line.
pub open spec fn info_statements() -> Seq<Seq<char>> {
    seq![
        "import sys, os, gc"@,
        "gc.collect()"@,
        "print('version:' + sys.version)"@,
        "print('platform:' + sys.platform)"@,
        "try:"@,
        " m=str(sys.implementation._machine)"@,
        "except:"@,
        " m=str(sys.implementation)"@,
        "print('machine:' + m)"@,
        "print('mem_free:' + str(gc.mem_free()))"@,
        "try:"@,
        " s=os.statvfs('/flash')"@,
        " print('fs_total:' + str(s[0]*s[2]))"@,
        " print('fs_free:' + str(s[0]*s[4]))"@,
        "except:"@,
        " try:"@,
        "  s=os.statvfs('/')"@,
        "  print('fs_total:' + str(s[0]*s[2]))"@,
        "  print('fs_free:' + str(s[0]*s[4]))"@,
        " except:"@,
        "  pass"@,
    ]
}

/// Prints what is known of a device.
pub open spec fn info_script() -> Seq<char> {
    lined(info_statements())
}

/// Prints the status of a file, one `key:value` on each line.
pub open spec fn stat_script(path: Seq<char>) -> Seq<char> {
    "import os\ns=os.stat("@ + python::str_literal(path)
        + ")\nprint('mode:' + str(s[0]))\nprint('size:' + str(s[6]))\nprint('mtime:' + str(s[8]))"@
}

// ---------------------------------------------------------------------------
// Building the scripts
// ---------------------------------------------------------------------------

/// A script around one literal.
fn around(before: &str, path: &str, after: &str) -> (r: String)
    ensures
        r@ == before@ + python::str_literal(path@) + after@,
{
    let mut s: String = before.to_owned();
    s.append(py_str_repr(path).as_str());
    s.append(after);
    s
}

/// Builds the script that prints the value of an expression.
pub fn build_eval_script(expr: &str) -> (r: String)
    ensures
        r@ == eval_script(expr@),
{
    let mut s: String = "print(repr(".to_owned();
    s.append(expr);
    s.append("))");
    s
}

/// Builds the script that runs a file.
pub fn build_run_script(path: &str) -> (r: String)
    ensures
        r@ == run_script(path@),
{
    let mut s: String = around(
        "exec(open(",
        path,
        ").read(), {'__name__':'__main__','__file__':",
    );
    s.append(py_str_repr(path).as_str());
    s.append("})");
    s
}

/// Builds the script that creates an empty file.
pub fn build_create_script(path: &str) -> (r: String)
    ensures
        r@ == create_script(path@),
{
    let mut s: String = around("__f=open(", path, ",'wb')");
    s.append("\n");
    s.append("__f.flush()\n__f.close()\n");
    s
}

fn push_write_lines(out: &mut String, data: &[u8])
    ensures
        final(out)@ == old(out)@ + write_lines(data@),
{
    let n: usize = data.len();
    let mut from: usize = 0;
    assert(data@.skip(0) =~= data@);
    while from < n
        invariant
            n == data@.len(),
            from <= n,
            out@ + write_lines(data@.skip(from as int)) == old(out)@ + write_lines(data@),
        decreases n - from,
    {
        let mut end: usize = n;
        if n - from > CHUNK_BYTES {
            end = from + CHUNK_BYTES;
        }
        let ghost before = out@;
        let ghost rest = data@.skip(from as int);
        let chunk: &[u8] = slice_subrange(data, from, end);
        out.append("__f.write(bytes.fromhex('");
        push_hex(out, chunk);
        out.append("'))");
        out.append("\n");
        proof {
            assert(chunk@ =~= head(rest, CHUNK_BYTES as nat));
            assert(data@.skip(end as int) =~= tail(rest, CHUNK_BYTES as nat));
            assert(out@ =~= before + (write_line(chunk@) + "\n"@));
            assert(out@ + write_lines(data@.skip(end as int)) =~= before + (write_line(chunk@)
                + "\n"@ + write_lines(data@.skip(end as int))));
        }
        from = end;
    }
    assert(data@.skip(n as int).len() == 0);
    assert(out@ + write_lines(data@.skip(n as int)) =~= out@);
}

/// The texts of strings.
pub open spec fn strings(v: Seq<String>) -> Seq<Seq<char>> {
    Seq::new(v.len(), |i: int| v[i]@)
}

/// Builds the scripts that write bytes to a file.
pub fn build_upload(path: &str, data: &[u8]) -> (r: Vec<String>)
    ensures
        strings(r@) == upload(path@, data@),
{
    let n: usize = data.len();
    let mut out: Vec<String> = Vec::new();
    let mut from: usize = 0;
    assert(data@.skip(0) =~= data@);
    assert(strings(out@) + upload(path@, data@) =~= upload(path@, data@));
    while from < n
        invariant
            n == data@.len(),
            from <= n,
            strings(out@) + upload_rest(path@, data@.skip(from as int), from == 0) == upload(
                path@,
                data@,
            ),
        decreases n - from,
    {
        let mut end: usize = n;
        if n - from > BATCH_BYTES {
            end = from + BATCH_BYTES;
        }
        let ghost before = out@;
        let ghost rest = data@.skip(from as int);
        let batch: &[u8] = slice_subrange(data, from, end);
        let mut script: String = String::new();
        if from == 0 {
            script = around("__f=open(", path, ",'wb')");
            script.append("\n");
        }
        push_write_lines(&mut script, batch);
        if end == n {
            script.append("__f.flush()\n__f.close()\n");
        }
        proof {
            assert(batch@ =~= head(rest, BATCH_BYTES as nat));
            assert(data@.skip(end as int) =~= tail(rest, BATCH_BYTES as nat));
            assert(script@ =~= upload_script(path@, batch@, from == 0, end == n));
        }
        out.push(script);
        proof {
            assert(strings(out@) =~= strings(before).push(script@));
            let later = upload_rest(path@, data@.skip(end as int), false);
            assert(strings(before) + (seq![script@] + later) =~= strings(out@) + later);
        }
        from = end;
    }
    assert(data@.skip(n as int).len() == 0);
    assert(strings(out@) + upload_rest(path@, data@.skip(n as int), from == 0) =~= strings(out@));
    out
}

/// Builds the script that prints the bytes of a file.
pub fn build_read_script(path: &str) -> (r: String)
    ensures
        r@ == read_script(path@),
{
    let mut s: String = around(
        "import binascii\n__f=open(",
        path,
        ",'rb')\nwhile True:\n  __d=__f.read(",
    );
    s.append(to_decimal(CHUNK_BYTES as u64).as_str());
    s.append(")\n  if not __d:break\n  print(binascii.hexlify(__d).decode())\n__f.close()");
    s
}

/// Builds the script that prints the names in a directory.
pub fn build_list_script(path: &str) -> (r: String)
    ensures
        r@ == list_script(path@),
{
    around(
        "import os,binascii\nfor __n in os.listdir(",
        path,
        "):\n print(binascii.hexlify(__n.encode()).decode())",
    )
}

/// Builds the script that removes a file.
pub fn build_remove_script(path: &str) -> (r: String)
    ensures
        r@ == remove_script(path@),
{
    around("import os; os.remove(", path, ")")
}

/// Builds the script that creates a directory.
pub fn build_mkdir_script(path: &str) -> (r: String)
    ensures
        r@ == mkdir_script(path@),
{
    around(
        "import os\np=",
        path,
        "\nfor i in range(1,len(p.split('/'))+1):\n d='/'.join(p.split('/')[:i]) or '/'\n try: os.mkdir(d)\n except: pass",
    )
}

/// The texts of string slices.
pub open spec fn slices(v: Seq<&str>) -> Seq<Seq<char>> {
    Seq::new(v.len(), |i: int| v[i]@)
}

/// Puts a line end behind each line.
fn with_line_ends(ls: &[&str]) -> (r: String)
    ensures
        r@ == lined(slices(ls@)),
{
    let ghost all = slices(ls@);
    let mut s: String = String::new();
    let mut i: usize = 0;
    assert(all.skip(0) =~= all);
    assert(s@ + lined(all) =~= lined(all));
    while i < ls.len()
        invariant
            i <= ls.len(),
            all == slices(ls@),
            s@ + lined(all.skip(i as int)) == lined(all),
        decreases ls.len() - i,
    {
        let ghost before = s@;
        let ghost rest = lined(all.skip(i + 1));
        assert(all.skip(i as int)[0] == ls@[i as int]@);
        assert(all.skip(i as int).skip(1) =~= all.skip(i + 1));
        s.append(ls[i]);
        s.append("\n");
        assert(s@ + rest =~= before + (ls@[i as int]@ + "\n"@ + rest));
        i = i + 1;
    }
    assert(all.skip(i as int).len() == 0);
    assert(s@ + lined(all.skip(i as int)) =~= s@);
    s
}

/// Builds the script that prints what is known of a device.
pub fn build_info_script() -> (r: String)
    ensures
        r@ == info_script(),
{
    let ls: Vec<&str> = vec![
        "import sys, os, gc",
        "gc.collect()",
        "print('version:' + sys.version)",
        "print('platform:' + sys.platform)",
        "try:",
        " m=str(sys.implementation._machine)",
        "except:",
        " m=str(sys.implementation)",
        "print('machine:' + m)",
        "print('mem_free:' + str(gc.mem_free()))",
        "try:",
        " s=os.statvfs('/flash')",
        " print('fs_total:' + str(s[0]*s[2]))",
        " print('fs_free:' + str(s[0]*s[4]))",
        "except:",
        " try:",
        "  s=os.statvfs('/')",
        "  print('fs_total:' + str(s[0]*s[2]))",
        "  print('fs_free:' + str(s[0]*s[4]))",
        " except:",
        "  pass",
    ];
    assert(slices(ls@) =~= info_statements());
    with_line_ends(ls.as_slice())
}

/// Builds the script that prints the status of a file.
pub fn build_stat_script(path: &str) -> (r: String)
    ensures
        r@ == stat_script(path@),
{
    around(
        "import os\ns=os.stat(",
        path,
        ")\nprint('mode:' + str(s[0]))\nprint('size:' + str(s[6]))\nprint('mtime:' + str(s[8]))",
    )
}

} // verus!
