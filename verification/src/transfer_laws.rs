//! What holds of file transfers as a whole: running the scripts of an upload
//! leaves the uploaded bytes in the file, and what a device prints of a file or a
//! directory reads back.

use vstd::prelude::*;

use crate::connection;
use crate::device;
use crate::error::ErrorView;
use crate::hex;
use crate::python;
use crate::replies;
use crate::replies::InfoView;
use crate::replies::StatView;
use crate::scripts;
use crate::session;
use crate::session::Output;
use crate::session::SessionView;
use crate::session_laws;
use crate::text;
use crate::unicode;

verus! {

// ---------------------------------------------------------------------------
// Running the scripts of an upload
// ---------------------------------------------------------------------------

/// The files of a device, and the one that is open for writing.
pub struct Files {
    pub files: Map<Seq<char>, Seq<u8>>,
    pub open: Option<Seq<char>>,
}

/// What stands between a beginning and an end.
pub open spec fn between(s: Seq<char>, begin: Seq<char>, end: Seq<char>) -> Option<Seq<char>> {
    if begin.len() + end.len() <= s.len() && s.take(begin.len() as int) == begin && s.skip(
        s.len() - end.len(),
    ) == end {
        Some(s.subrange(begin.len() as int, s.len() - end.len()))
    } else {
        None
    }
}

/// Opens a file for writing, which empties it.
pub open spec fn opened(f: Files, path: Seq<char>) -> Files {
    Files { files: f.files.insert(path, Seq::empty()), open: Some(path) }
}

/// Writes to the open file.
pub open spec fn appended(f: Files, data: Seq<u8>) -> Option<Files> {
    match f.open {
        Some(path) => Some(
            Files { files: f.files.insert(path, f.files[path] + data), open: f.open },
        ),
        None => None,
    }
}

/// The bytes that `bytes.fromhex` makes of a text.
pub open spec fn from_hex(s: Seq<char>) -> Option<Seq<u8>> {
    if s.contains('+') {
        None
    } else {
        hex::hex_value(s)
    }
}

/// Runs one statement, of the kinds that an upload is made of.
pub open spec fn run_line(f: Files, line: Seq<char>) -> Option<Files> {
    if line == "__f.flush()"@ {
        match f.open {
            Some(_) => Some(f),
            None => None,
        }
    } else if line == "__f.close()"@ {
        Some(Files { files: f.files, open: None })
    } else {
        match between(line, "__f=open("@, ",'wb')"@) {
            Some(literal) => match python::read_str(literal) {
                Some(path) => Some(opened(f, path)),
                None => None,
            },
            None => match between(line, "__f.write(bytes.fromhex('"@, "'))"@) {
                Some(digits) => match from_hex(digits) {
                    Some(data) => appended(f, data),
                    None => None,
                },
                None => None,
            },
        }
    }
}

/// Runs statements one after the other.
pub open spec fn run_lines(f: Files, ls: Seq<Seq<char>>) -> Option<Files>
    decreases ls.len(),
{
    if ls.len() == 0 {
        Some(f)
    } else {
        match run_line(f, ls[0]) {
            Some(g) => run_lines(g, ls.skip(1)),
            None => None,
        }
    }
}

/// Runs a script.
pub open spec fn run_script(f: Files, script: Seq<char>) -> Option<Files> {
    run_lines(f, text::lines(script))
}

/// Runs scripts one after the other.
pub open spec fn run_scripts(f: Files, all: Seq<Seq<char>>) -> Option<Files>
    decreases all.len(),
{
    if all.len() == 0 {
        Some(f)
    } else {
        match run_script(f, all[0]) {
            Some(g) => run_scripts(g, all.skip(1)),
            None => None,
        }
    }
}

proof fn lemma_run_first_line(f: Files, line: Seq<char>, rest: Seq<char>)
    requires
        !line.contains('\n'),
        line.len() > 0 ==> line.last() != '\r',
    ensures
        run_script(f, line + "\n"@ + rest) == (match run_line(f, line) {
            Some(g) => run_script(g, rest),
            None => None,
        }),
{
    text::lemma_first_line(line, rest);
    let ls = text::lines(line + "\n"@ + rest);
    assert(ls[0] == line);
    assert(ls.skip(1) =~= text::lines(rest));
}

pub proof fn lemma_literal_chars(s: Seq<char>)
    ensures
        !python::str_body(s).contains('\n'),
        !python::str_body(s).contains('\r'),
    decreases s.len(),
{
    if s.len() > 0 {
        lemma_literal_chars(s.skip(1));
        let head = python::str_escape(s[0]);
        let tail = python::str_body(s.skip(1));
        reveal_strlit("\\\\");
        reveal_strlit("\\'");
        reveal_strlit("\\n");
        reveal_strlit("\\r");
        reveal_strlit("\\t");
        reveal_strlit("\\x");
        assert forall|i: int| 0 <= i < (head + tail).len() implies (head + tail)[i] != '\n' && (head
            + tail)[i] != '\r' by {
            if i >= head.len() {
                assert(tail.contains(tail[i - head.len()]));
            }
        }
    }
}

proof fn lemma_run_open(f: Files, path: Seq<char>)
    ensures
        run_line(f, scripts::open_line(path)) == Some(opened(f, path)),
        !scripts::open_line(path).contains('\n'),
        scripts::open_line(path).len() > 0,
        scripts::open_line(path).last() != '\r',
{
    reveal_strlit("__f=open(");
    reveal_strlit(",'wb')");
    reveal_strlit("__f.flush()");
    reveal_strlit("__f.close()");
    let line = scripts::open_line(path);
    let literal = python::str_literal(path);
    python::law_str_literal_reads_back(path);
    lemma_literal_chars(path);
    assert(line[3] == '=');
    assert("__f.flush()"@[3] == '.');
    assert("__f.close()"@[3] == '.');
    assert(line.take(9) =~= "__f=open("@);
    assert(line.skip(line.len() - 6) =~= ",'wb')"@);
    assert(line.subrange(9, line.len() - 6) =~= literal);
    assert forall|i: int| 0 <= i < line.len() implies line[i] != '\n' by {
        let j = i - 10;
        if 0 <= j < python::str_body(path).len() {
            assert(line[i] == python::str_body(path)[j]);
            assert(python::str_body(path).contains(line[i]));
        }
    }
}

proof fn lemma_run_write(f: Files, chunk: Seq<u8>)
    ensures
        run_line(f, scripts::write_line(chunk)) == appended(f, chunk),
        !scripts::write_line(chunk).contains('\n'),
        scripts::write_line(chunk).len() > 0,
        scripts::write_line(chunk).last() != '\r',
{
    reveal_strlit("__f=open(");
    reveal_strlit("__f.write(bytes.fromhex('");
    reveal_strlit("'))");
    reveal_strlit("__f.flush()");
    reveal_strlit("__f.close()");
    let line = scripts::write_line(chunk);
    let digits = hex::hex_text(chunk);
    hex::lemma_hex_text(chunk);
    assert(line[4] == 'w');
    assert("__f.flush()"@[4] == 'f');
    assert("__f.close()"@[4] == 'c');
    assert(line.take(9)[3] == '.');
    assert("__f=open("@[3] == '=');
    assert(line.take(25) =~= "__f.write(bytes.fromhex('"@);
    assert(line.skip(line.len() - 3) =~= "'))"@);
    assert(line.subrange(25, line.len() - 3) =~= digits);
    assert(!digits.contains('+'));
    assert forall|i: int| 0 <= i < line.len() implies line[i] != '\n' by {
        let j = i - 25;
        if 0 <= j < digits.len() {
            assert(line[i] == digits[j]);
            assert(!text::white(digits[j]));
        }
    }
}

proof fn lemma_run_writes(f: Files, path: Seq<char>, data: Seq<u8>, rest: Seq<char>)
    requires
        f.open == Some(path),
        f.files.dom().contains(path),
    ensures
        run_script(f, scripts::write_lines(data) + rest) == run_script(
            appended(f, data)->0,
            rest,
        ),
    decreases data.len(),
{
    let chunk = scripts::head(data, scripts::CHUNK_BYTES as nat);
    let later = scripts::tail(data, scripts::CHUNK_BYTES as nat);
    if data.len() == 0 {
        assert(scripts::write_lines(data) + rest =~= rest);
        assert(f.files[path] + data =~= f.files[path]);
        assert(f.files.insert(path, f.files[path]) =~= f.files);
    } else {
        let g = appended(f, chunk)->0;
        let line = scripts::write_line(chunk);
        lemma_run_write(f, chunk);
        lemma_run_first_line(f, line, scripts::write_lines(later) + rest);
        assert(scripts::write_lines(data) + rest =~= line + "\n"@ + (scripts::write_lines(later)
            + rest));
        lemma_run_writes(g, path, later, rest);
        assert(chunk + later =~= data);
        assert(f.files[path] + data =~= f.files[path] + chunk + later);
        assert(appended(g, later)->0.files =~= appended(f, data)->0.files);
    }
}

proof fn lemma_run_close(f: Files, path: Seq<char>)
    requires
        f.open == Some(path),
    ensures
        run_script(f, scripts::close_lines()) == Some(Files { files: f.files, open: None }),
{
    reveal_strlit("__f.flush()\n__f.close()\n");
    reveal_strlit("__f.flush()");
    reveal_strlit("__f.close()");
    reveal_strlit("\n");
    assert(scripts::close_lines() =~= "__f.flush()"@ + "\n"@ + ("__f.close()"@ + "\n"@
        + Seq::empty()));
    assert("__f.flush()"@[4] != "__f.close()"@[4]);
    lemma_run_first_line(f, "__f.flush()"@, "__f.close()"@ + "\n"@ + Seq::empty());
    lemma_run_first_line(f, "__f.close()"@, Seq::empty());
}

proof fn lemma_run_first_script(f: Files, script: Seq<char>, rest: Seq<Seq<char>>)
    ensures
        run_scripts(f, seq![script] + rest) == (match run_script(f, script) {
            Some(g) => run_scripts(g, rest),
            None => None,
        }),
{
    let all = seq![script] + rest;
    assert(all[0] == script);
    assert(all.skip(1) =~= rest);
}

proof fn lemma_run_nothing(f: Files)
    ensures
        run_script(f, Seq::empty()) == Some(f),
{
}

/// The files after an upload.
pub open spec fn after_upload(f: Files, path: Seq<char>, data: Seq<u8>) -> Files {
    Files { files: f.files.insert(path, data), open: None }
}

/// Creating an empty file leaves an empty file.
pub proof fn law_create_leaves_an_empty_file(f: Files, path: Seq<char>)
    ensures
        run_script(f, scripts::create_script(path)) == Some(
            after_upload(f, path, Seq::empty()),
        ),
{
    let line = scripts::open_line(path);
    lemma_run_open(f, path);
    lemma_run_first_line(f, line, scripts::close_lines());
    lemma_run_close(opened(f, path), path);
}

proof fn lemma_upload_rest(f: Files, path: Seq<char>, data: Seq<u8>)
    requires
        data.len() > 0,
        f.open == Some(path),
        f.files.dom().contains(path),
    ensures
        run_scripts(f, scripts::upload_rest(path, data, false)) == Some(
            after_upload(f, path, f.files[path] + data),
        ),
    decreases data.len(),
{
    let batch = scripts::head(data, scripts::BATCH_BYTES as nat);
    let rest = scripts::tail(data, scripts::BATCH_BYTES as nat);
    let script = scripts::upload_script(path, batch, false, rest.len() == 0);
    lemma_run_first_script(f, script, scripts::upload_rest(path, rest, false));
    lemma_upload_step(f, path, batch, rest);
    let g = appended(f, batch)->0;
    assert(batch + rest =~= data);
    if rest.len() == 0 {
        assert(batch =~= data);
    } else {
        lemma_upload_rest(g, path, rest);
        assert(f.files[path] + data =~= f.files[path] + batch + rest);
        assert(g.files.insert(path, f.files[path] + data) =~= f.files.insert(
            path,
            f.files[path] + data,
        ));
    }
}

/// One script of an upload, from the opening on.
proof fn lemma_upload_step(f: Files, path: Seq<char>, batch: Seq<u8>, rest: Seq<u8>)
    requires
        f.open == Some(path),
        f.files.dom().contains(path),
    ensures
        run_script(f, scripts::upload_script(path, batch, false, rest.len() == 0)) == Some(
            if rest.len() == 0 {
                after_upload(f, path, f.files[path] + batch)
            } else {
                appended(f, batch)->0
            },
        ),
{
    let g = appended(f, batch)->0;
    let script = scripts::upload_script(path, batch, false, rest.len() == 0);
    if rest.len() == 0 {
        assert(script =~= scripts::write_lines(batch) + scripts::close_lines());
        lemma_run_writes(f, path, batch, scripts::close_lines());
        lemma_run_close(g, path);
    } else {
        assert(script =~= scripts::write_lines(batch) + Seq::empty());
        lemma_run_writes(f, path, batch, Seq::empty());
        lemma_run_nothing(g);
    }
}

/// Running the scripts of an upload leaves exactly the uploaded bytes in the file,
/// closes it, and changes no other file.
pub proof fn law_upload_leaves_the_data(f: Files, path: Seq<char>, data: Seq<u8>)
    requires
        data.len() > 0,
    ensures
        run_scripts(f, scripts::upload(path, data)) == Some(after_upload(f, path, data)),
{
    let batch = scripts::head(data, scripts::BATCH_BYTES as nat);
    let rest = scripts::tail(data, scripts::BATCH_BYTES as nat);
    let last = rest.len() == 0;
    let script = scripts::upload_script(path, batch, true, last);
    let tail = scripts::upload_script(path, batch, false, last);
    let g = opened(f, path);
    lemma_run_first_script(f, script, scripts::upload_rest(path, rest, false));
    lemma_run_open(f, path);
    assert(script =~= scripts::open_line(path) + "\n"@ + tail);
    lemma_run_first_line(f, scripts::open_line(path), tail);
    lemma_upload_step(g, path, batch, rest);
    assert(batch + rest =~= data);
    assert(g.files[path] + batch =~= batch);
    if last {
        assert(batch =~= data);
        assert(g.files.insert(path, data) =~= f.files.insert(path, data));
    } else {
        let h = appended(g, batch)->0;
        lemma_upload_rest(h, path, rest);
        assert(h.files[path] + rest =~= data);
        assert(h.files.insert(path, data) =~= f.files.insert(path, data));
    }
}

/// How many parts of `size` bytes `n` bytes make.
pub open spec fn parts(n: nat, size: nat) -> nat
    recommends
        size > 0,
{
    ((n + size - 1) / size as int) as nat
}

/// The part with the number `i` of bytes cut into parts of `size` bytes.
pub open spec fn part(data: Seq<u8>, size: nat, i: int) -> Seq<u8> {
    scripts::head(data.skip(size * i), size)
}

proof fn lemma_upload_batches(path: Seq<char>, data: Seq<u8>, first: bool)
    ensures
        scripts::upload_rest(path, data, first).len() == parts(
            data.len(),
            scripts::BATCH_BYTES as nat,
        ),
        forall|i: int|
            0 <= i < scripts::upload_rest(path, data, first).len()
                ==> #[trigger] scripts::upload_rest(path, data, first)[i]
                == scripts::upload_script(
                path,
                part(data, scripts::BATCH_BYTES as nat, i),
                first && i == 0,
                i == scripts::upload_rest(path, data, first).len() - 1,
            ),
    decreases data.len(),
{
    let size = scripts::BATCH_BYTES as nat;
    let rest = scripts::tail(data, size);
    if data.len() > 0 {
        let all = scripts::upload_rest(path, data, first);
        let later = scripts::upload_rest(path, rest, false);
        lemma_upload_batches(path, rest, false);
        assert(data.skip(0) =~= data);
        assert forall|i: int| 0 <= i < all.len() implies #[trigger] all[i]
            == scripts::upload_script(
            path,
            part(data, size, i),
            first && i == 0,
            i == all.len() - 1,
        ) by {
            if i > 0 {
                assert(all[i] == later[i - 1]);
                assert(data.len() > size);
                assert(rest.skip(size * (i - 1)) =~= data.skip(size * i));
            }
        }
    }
}

/// An upload cuts the data into batches: every script but the last one writes a
/// whole batch, only the first one opens the file and only the last one closes it.
pub proof fn law_upload_batches(path: Seq<char>, data: Seq<u8>)
    ensures
        scripts::upload(path, data).len() == parts(data.len(), scripts::BATCH_BYTES as nat),
        forall|i: int|
            0 <= i < scripts::upload(path, data).len() ==> #[trigger] scripts::upload(
                path,
                data,
            )[i] == scripts::upload_script(
                path,
                part(data, scripts::BATCH_BYTES as nat, i),
                i == 0,
                i == scripts::upload(path, data).len() - 1,
            ),
{
    lemma_upload_batches(path, data, true);
}

/// The statements of one batch: one for each chunk, so at most `BATCH_CHUNKS`.
pub proof fn law_batch_chunks(batch: Seq<u8>)
    requires
        batch.len() <= scripts::BATCH_BYTES,
    ensures
        text::lines(scripts::write_lines(batch)).len() == parts(
            batch.len(),
            scripts::CHUNK_BYTES as nat,
        ),
        parts(batch.len(), scripts::CHUNK_BYTES as nat) <= scripts::BATCH_CHUNKS,
{
    lemma_write_count(batch);
}

/// An upload has a script for every two kibibytes, and a script a statement for every
/// hundred and twenty-eight bytes.
pub proof fn law_upload_sizes(path: Seq<char>, data: Seq<u8>, batch: Seq<u8>)
    ensures
        scripts::upload(path, data).len() == parts(data.len(), 2048),
        text::lines(scripts::write_lines(batch)).len() == parts(batch.len(), 128),
{
    law_upload_batches(path, data);
    lemma_write_count(batch);
}

proof fn lemma_write_count(data: Seq<u8>)
    ensures
        text::lines(scripts::write_lines(data)).len() == parts(
            data.len(),
            scripts::CHUNK_BYTES as nat,
        ),
    decreases data.len(),
{
    if data.len() > 0 {
        let chunk = scripts::head(data, scripts::CHUNK_BYTES as nat);
        let later = scripts::tail(data, scripts::CHUNK_BYTES as nat);
        lemma_write_count(later);
        lemma_run_write(Files { files: Map::empty(), open: None }, chunk);
        text::lemma_first_line(scripts::write_line(chunk), scripts::write_lines(later));
    }
}

/// A file that was written was sent as the scripts of its upload, whole and in
/// order, in one raw session; an empty file as the script that creates it.
pub proof fn law_written_file_was_sent(
    pre: SessionView,
    path: Seq<char>,
    data: Seq<u8>,
    post: SessionView,
)
    requires
        device::writes(pre, path, data, post, Ok(())),
    ensures
        session_laws::continues(pre, post),
        data.len() == 0 ==> session_laws::ends_with_execution(
            connection::written(session_laws::since(pre, post)),
            vstd::utf8::encode_utf8(scripts::create_script(path)),
        ),
        data.len() > 0 ==> session_laws::ends_with_batch(
            connection::written(session_laws::since(pre, post)),
            device::encoded(scripts::upload(path, data)),
        ),
{
    if data.len() == 0 {
        let script = scripts::create_script(path);
        let p = choose|p: Result<Seq<char>, ErrorView>| #[trigger]
            device::prints(pre, script, post, p) && Ok::<(), ErrorView>(()) == device::done(p);
        let out = choose|out: Result<Output, ErrorView>| #[trigger]
            device::runs(pre, script, post, out) && p == device::printed(out);
        session_laws::law_execution_sends_the_code(
            pre,
            vstd::utf8::encode_utf8(script),
            post,
            out->Ok_0,
        );
    } else {
        let codes = device::encoded(scripts::upload(path, data));
        let outs = choose|outs: Result<Seq<Output>, ErrorView>| #[trigger]
            session::executes_batch(pre, codes, post, outs) && Ok::<(), ErrorView>(())
                == device::batch_done(outs);
        session_laws::law_batch_sends_the_codes(pre, codes, post, outs->Ok_0);
    }
}

// ---------------------------------------------------------------------------
// Reading back what a device prints
// ---------------------------------------------------------------------------

/// A line that a device prints.
pub open spec fn printed_line(line: Seq<char>) -> Seq<char> {
    line + "\r\n"@
}

pub proof fn lemma_first_printed_line(line: Seq<char>, rest: Seq<char>)
    requires
        !line.contains('\n'),
    ensures
        text::lines(printed_line(line) + rest) == seq![line] + text::lines(rest),
{
    reveal_strlit("\r\n");
    let all = printed_line(line) + rest;
    let k = line.len() + 1;
    assert(all[k as int] == '\n');
    assert forall|j: int| 0 <= j < k implies all[j] != '\n' by {
        if j < line.len() {
            assert(all[j] == line[j]);
        }
    }
    text::lemma_position_unique(all, '\n', k);
    assert(all.take(k as int).drop_last() =~= line);
    assert(all.take(k as int).last() == '\r');
    assert(all.skip(k as int + 1) =~= rest);
}

/// What a device prints of a file: the bytes in hexadecimal, a chunk on each line.
pub open spec fn printed_file(data: Seq<u8>) -> Seq<char>
    decreases data.len(),
{
    if data.len() == 0 {
        Seq::empty()
    } else {
        printed_line(hex::hex_text(scripts::head(data, scripts::CHUNK_BYTES as nat)))
            + printed_file(scripts::tail(data, scripts::CHUNK_BYTES as nat))
    }
}

pub proof fn lemma_hex_line(data: Seq<u8>)
    requires
        data.len() > 0,
    ensures
        text::trimmed(hex::hex_text(data)) == hex::hex_text(data),
        hex::hex_text(data).len() > 0,
        !hex::hex_text(data).contains('\n'),
{
    let t = hex::hex_text(data);
    hex::lemma_hex_text(data);
    assert(text::trimmed_start(t) == t);
    assert(text::trimmed_end(t) == t);
    assert forall|i: int| 0 <= i < t.len() implies t[i] != '\n' by {
        assert(!text::white(t[i]));
    }
}

pub proof fn lemma_download_first(data: Seq<u8>, ls: Seq<Seq<char>>, rest: Seq<u8>)
    requires
        data.len() > 0,
        replies::download(ls) == Ok::<Seq<u8>, ErrorView>(rest),
    ensures
        replies::download(seq![hex::hex_text(data)] + ls) == Ok::<Seq<u8>, ErrorView>(
            data + rest,
        ),
    decreases ls.len(),
{
    let all = seq![hex::hex_text(data)] + ls;
    lemma_hex_line(data);
    hex::law_hex_bytes_round_trip(data);
    reveal_with_fuel(replies::download, 2);
    if ls.len() == 0 {
        assert(all.drop_last().len() == 0);
        assert(all.last() == hex::hex_text(data));
        assert(Seq::<u8>::empty() + data =~= data + rest);
    } else {
        assert(all.drop_last() =~= seq![hex::hex_text(data)] + ls.drop_last());
        assert(all.last() == ls.last());
        let before = replies::download(ls.drop_last())->Ok_0;
        lemma_download_first(data, ls.drop_last(), before);
        let line = text::trimmed(ls.last());
        if line.len() > 0 {
            let chunk = hex::hex_bytes(line)->Ok_0;
            assert(data + before + chunk =~= data + (before + chunk));
        }
    }
}

/// What a device prints of a file reads back as the bytes of the file.
pub proof fn law_download_reads_back(data: Seq<u8>)
    ensures
        replies::download(text::lines(printed_file(data))) == Ok::<Seq<u8>, ErrorView>(data),
    decreases data.len(),
{
    if data.len() == 0 {
        assert(data =~= Seq::empty());
    } else {
        let chunk = scripts::head(data, scripts::CHUNK_BYTES as nat);
        let rest = scripts::tail(data, scripts::CHUNK_BYTES as nat);
        law_download_reads_back(rest);
        lemma_hex_line(chunk);
        lemma_first_printed_line(hex::hex_text(chunk), printed_file(rest));
        lemma_download_first(chunk, text::lines(printed_file(rest)), rest);
        assert(chunk + rest =~= data);
    }
}

/// Text that a device prints arrives as the same text.
pub proof fn law_printed_text_arrives(t: Seq<char>)
    ensures
        device::printed(
            Ok(Output { stdout: vstd::utf8::encode_utf8(t), stderr: Seq::empty() }),
        ) == Ok::<Seq<char>, ErrorView>(t),
{
    vstd::utf8::encode_utf8_valid_utf8(t);
    vstd::utf8::encode_utf8_decode_utf8(t);
    assert(unicode::text_of(vstd::utf8::encode_utf8(t)) == t);
}

/// A download gives back what an upload wrote: after the scripts of the upload,
/// what the device prints of the file reads back as the uploaded bytes.
pub proof fn law_download_gives_back_an_upload(f: Files, path: Seq<char>, data: Seq<u8>)
    ensures
        ({
            let g = if data.len() == 0 {
                run_script(f, scripts::create_script(path))
            } else {
                run_scripts(f, scripts::upload(path, data))
            };
            &&& g is Some
            &&& device::contents(
                device::printed(
                    Ok(
                        Output {
                            stdout: vstd::utf8::encode_utf8(printed_file(g->0.files[path])),
                            stderr: Seq::empty(),
                        },
                    ),
                ),
            ) == Ok::<Seq<u8>, ErrorView>(data)
        }),
{
    if data.len() == 0 {
        law_create_leaves_an_empty_file(f, path);
        assert(data =~= Seq::empty());
    } else {
        law_upload_leaves_the_data(f, path, data);
    }
    law_download_reads_back(data);
    law_printed_text_arrives(printed_file(data));
}

/// What a device prints of a directory: the name of each file, its UTF-8 bytes in
/// hexadecimal.
pub open spec fn printed_names(names: Seq<Seq<char>>) -> Seq<char>
    decreases names.len(),
{
    if names.len() == 0 {
        Seq::empty()
    } else {
        printed_line(hex::hex_text(vstd::utf8::encode_utf8(names[0]))) + printed_names(
            names.skip(1),
        )
    }
}

proof fn lemma_encoded_not_empty(s: Seq<char>)
    requires
        s.len() > 0,
    ensures
        vstd::utf8::encode_utf8(s).len() > 0,
{
    vstd::utf8::encode_utf8_decode_utf8(s);
    if vstd::utf8::encode_utf8(s).len() == 0 {
        assert(vstd::utf8::encode_utf8(s) =~= vstd::utf8::encode_utf8(Seq::<char>::empty()));
        vstd::utf8::encode_utf8_decode_utf8(Seq::<char>::empty());
    }
}

proof fn lemma_listing_first(name: Seq<char>, ls: Seq<Seq<char>>, rest: Seq<Seq<char>>)
    requires
        name.len() > 0,
        replies::listing(ls) == Ok::<Seq<Seq<char>>, ErrorView>(rest),
    ensures
        replies::listing(seq![hex::hex_text(vstd::utf8::encode_utf8(name))] + ls) == Ok::<
            Seq<Seq<char>>,
            ErrorView,
        >(seq![name] + rest),
    decreases ls.len(),
{
    let line = hex::hex_text(vstd::utf8::encode_utf8(name));
    let all = seq![line] + ls;
    lemma_encoded_not_empty(name);
    lemma_hex_line(vstd::utf8::encode_utf8(name));
    hex::law_hex_string_round_trip(name);
    reveal_with_fuel(replies::listing, 2);
    if ls.len() == 0 {
        assert(all.drop_last().len() == 0);
        assert(all.last() == line);
        assert(Seq::<Seq<char>>::empty().push(name) =~= seq![name] + rest);
    } else {
        assert(all.drop_last() =~= seq![line] + ls.drop_last());
        assert(all.last() == ls.last());
        let before = replies::listing(ls.drop_last())->Ok_0;
        lemma_listing_first(name, ls.drop_last(), before);
        assert(forall|x: Seq<char>|
            (seq![name] + before).push(x) =~= seq![name] + #[trigger] before.push(x));
    }
}

/// What a device prints of a directory reads back as its names. A name is never
/// empty.
pub proof fn law_listing_reads_back(names: Seq<Seq<char>>)
    requires
        forall|i: int| 0 <= i < names.len() ==> (#[trigger] names[i]).len() > 0,
    ensures
        replies::listing(text::lines(printed_names(names))) == Ok::<Seq<Seq<char>>, ErrorView>(
            names,
        ),
    decreases names.len(),
{
    if names.len() == 0 {
        assert(names =~= Seq::empty());
    } else {
        let rest = names.skip(1);
        law_listing_reads_back(rest);
        lemma_encoded_not_empty(names[0]);
        lemma_hex_line(vstd::utf8::encode_utf8(names[0]));
        lemma_first_printed_line(
            hex::hex_text(vstd::utf8::encode_utf8(names[0])),
            printed_names(rest),
        );
        lemma_listing_first(names[0], text::lines(printed_names(rest)), rest);
        assert(seq![names[0]] + rest =~= names);
    }
}

/// Several lines that a device prints.
pub open spec fn printed_lines(ls: Seq<Seq<char>>) -> Seq<char>
    decreases ls.len(),
{
    if ls.len() == 0 {
        Seq::empty()
    } else {
        printed_line(ls[0]) + printed_lines(ls.skip(1))
    }
}

proof fn lemma_printed_lines(ls: Seq<Seq<char>>)
    requires
        forall|i: int| 0 <= i < ls.len() ==> !(#[trigger] ls[i]).contains('\n'),
    ensures
        text::lines(printed_lines(ls)) == ls,
    decreases ls.len(),
{
    if ls.len() == 0 {
        assert(ls =~= Seq::empty());
    } else {
        lemma_printed_lines(ls.skip(1));
        lemma_first_printed_line(ls[0], printed_lines(ls.skip(1)));
        assert(seq![ls[0]] + ls.skip(1) =~= ls);
    }
}

/// A line with a key and a value.
pub open spec fn key_line(key: Seq<char>, value: Seq<char>) -> Seq<char> {
    key + ":"@ + value
}

/// A text that fills a line up to its end.
pub open spec fn fills_line(s: Seq<char>) -> bool {
    !s.contains('\n') && (s.len() > 0 ==> !text::white(s.last()))
}

/// Whether a text can be a key.
pub open spec fn is_key(s: Seq<char>) -> bool {
    s.len() > 0 && forall|i: int|
        0 <= i < s.len() ==> 'a' <= #[trigger] s[i] <= 'z' || s[i] == '_'
}

proof fn lemma_key_line(key: Seq<char>, value: Seq<char>)
    requires
        is_key(key),
        fills_line(value),
    ensures
        replies::key_value(key_line(key, value)) == Some((key, value)),
        !key_line(key, value).contains('\n'),
{
    reveal_strlit(":");
    let line = key_line(key, value);
    assert(line[0] == key[0]);
    assert(text::trimmed_start(line) == line);
    assert(line.last() == if value.len() > 0 {
        value.last()
    } else {
        ':'
    });
    assert(text::trimmed_end(line) == line);
    assert(line[key.len() as int] == ':');
    assert forall|j: int| 0 <= j < key.len() implies line[j] != ':' by {
        assert(line[j] == key[j]);
    }
    text::lemma_position_unique(line, ':', key.len());
    assert(line.take(key.len() as int) =~= key);
    assert(line.skip(key.len() as int + 1) =~= value);
    assert forall|i: int| 0 <= i < line.len() implies line[i] != '\n' by {
        if i < key.len() {
            assert(line[i] == key[i]);
        } else if i > key.len() {
            assert(line[i] == value[i - key.len() - 1]);
            assert(value.contains(line[i]));
        }
    }
}

pub proof fn lemma_decimal_fills_line(n: nat)
    ensures
        fills_line(text::decimal(n)),
        text::decimal(n).len() > 0,
    decreases n,
{
    let s = text::decimal(n);
    if n >= 10 {
        lemma_decimal_fills_line(n / 10);
        let before = text::decimal(n / 10);
        assert forall|i: int| 0 <= i < s.len() implies s[i] != '\n' by {
            if i < before.len() {
                assert(before.contains(before[i]));
            }
        }
    }
}

proof fn lemma_u64_line(n: u64)
    ensures
        fills_line(text::decimal(n as nat)),
        replies::u64_value(text::decimal(n as nat)) == Some(n),
{
    lemma_decimal_fills_line(n as nat);
    text::law_decimal_reads_back(n as nat, u64::MAX as nat);
}

/// The lines that a device prints of a file.
pub open spec fn stat_lines(mode: u32, size: u64, mtime: u64) -> Seq<Seq<char>> {
    seq![
        key_line("mode"@, text::decimal(mode as nat)),
        key_line("size"@, text::decimal(size as nat)),
        key_line("mtime"@, text::decimal(mtime as nat)),
    ]
}

/// What a device prints of a file reads back as its status. A time of zero stands
/// for no time.
pub proof fn law_stat_reads_back(path: Seq<char>, mode: u32, size: u64, mtime: u64)
    ensures
        replies::stat_of(path, text::lines(printed_lines(stat_lines(mode, size, mtime)))) == (
        StatView {
            path,
            is_dir: replies::is_dir_mode(mode),
            size,
            mtime: if mtime > 0 {
                Some(mtime)
            } else {
                None
            },
        }),
{
    reveal_strlit("mode");
    reveal_strlit("size");
    reveal_strlit("mtime");
    let ls = stat_lines(mode, size, mtime);
    lemma_decimal_fills_line(mode as nat);
    text::law_decimal_reads_back(mode as nat, u32::MAX as nat);
    lemma_u64_line(size);
    lemma_u64_line(mtime);
    lemma_key_line("mode"@, text::decimal(mode as nat));
    lemma_key_line("size"@, text::decimal(size as nat));
    lemma_key_line("mtime"@, text::decimal(mtime as nat));
    lemma_printed_lines(ls);
    assert("mode"@[0] != "size"@[0]);
    assert("mode"@.len() != "mtime"@.len());
    assert("size"@.len() != "mtime"@.len());
    let one = ls.drop_last().drop_last();
    assert(one.drop_last().len() == 0);
    reveal_with_fuel(replies::stat_fields, 4);
}

/// A line for a number that may be missing.
pub open spec fn number_line(key: Seq<char>, n: Option<u64>) -> Seq<Seq<char>> {
    match n {
        Some(v) => seq![key_line(key, text::decimal(v as nat))],
        None => Seq::empty(),
    }
}

/// The lines that a device prints of itself.
pub open spec fn info_lines(info: InfoView) -> Seq<Seq<char>> {
    seq![
        key_line("version"@, info.version),
        key_line("platform"@, info.platform),
        key_line("machine"@, info.machine),
    ] + number_line("mem_free"@, info.mem_free) + number_line("fs_total"@, info.fs_total)
        + number_line("fs_free"@, info.fs_free)
}

proof fn lemma_info_push(ls: Seq<Seq<char>>, line: Seq<char>)
    ensures
        replies::info_of(ls + seq![line]) == replies::info_line(replies::info_of(ls), line),
{
    let all = ls + seq![line];
    assert(all.drop_last() =~= ls);
    assert(all.last() == line);
}

/// What a device prints of itself reads back. The texts stand on one line each and
/// have no white space at their end.
pub proof fn law_info_reads_back(info: InfoView)
    requires
        fills_line(info.version),
        fills_line(info.platform),
        fills_line(info.machine),
    ensures
        replies::info_of(text::lines(printed_lines(info_lines(info)))) == info,
{
    reveal_strlit("version");
    reveal_strlit("platform");
    reveal_strlit("machine");
    reveal_strlit("mem_free");
    reveal_strlit("fs_total");
    reveal_strlit("fs_free");
    let none = Seq::<Seq<char>>::empty();
    let a = none + seq![key_line("version"@, info.version)];
    let b = a + seq![key_line("platform"@, info.platform)];
    let c = b + seq![key_line("machine"@, info.machine)];
    let d = c + number_line("mem_free"@, info.mem_free);
    let e = d + number_line("fs_total"@, info.fs_total);
    let f = e + number_line("fs_free"@, info.fs_free);
    assert(info_lines(info) =~= f);
    assert("version"@[0] == 'v' && "machine"@[0] == 'm' && "fs_free"@[0] == 'f');
    assert("machine"@[1] == 'a' && "mem_free"@[1] == 'e');
    assert("platform"@[0] == 'p' && "fs_total"@[0] == 'f' && "mem_free"@[0] == 'm');
    assert("fs_free"@[3] == 'f' && "fs_total"@[3] == 't');
    lemma_key_line("version"@, info.version);
    lemma_info_push(none, key_line("version"@, info.version));
    lemma_key_line("platform"@, info.platform);
    lemma_info_push(a, key_line("platform"@, info.platform));
    lemma_key_line("machine"@, info.machine);
    lemma_info_push(b, key_line("machine"@, info.machine));
    match info.mem_free {
        Some(v) => {
            lemma_u64_line(v);
            lemma_key_line("mem_free"@, text::decimal(v as nat));
            lemma_info_push(c, key_line("mem_free"@, text::decimal(v as nat)));
        },
        None => {
            assert(d =~= c);
        },
    }
    match info.fs_total {
        Some(v) => {
            lemma_u64_line(v);
            lemma_key_line("fs_total"@, text::decimal(v as nat));
            lemma_info_push(d, key_line("fs_total"@, text::decimal(v as nat)));
        },
        None => {
            assert(e =~= d);
        },
    }
    match info.fs_free {
        Some(v) => {
            lemma_u64_line(v);
            lemma_key_line("fs_free"@, text::decimal(v as nat));
            lemma_info_push(e, key_line("fs_free"@, text::decimal(v as nat)));
        },
        None => {
            assert(f =~= e);
        },
    }
    lemma_printed_lines(f);
}

} // verus!
