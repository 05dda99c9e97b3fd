//! What the scripts print, and what it means.

use vstd::prelude::*;
use vstd::slice::slice_subrange;

use crate::error;
use crate::error::ErrorView;
use crate::error::MpError;
use crate::hex;
use crate::hex::parse_hex_bytes;
use crate::hex::parse_hex_string;
use crate::scripts;
use crate::text;
use crate::text::chars_eq;
use crate::text::find;
use crate::text::from_chars;
use crate::text::parse_unsigned;
use crate::text::split_lines;
use crate::text::to_chars;
use crate::text::trim;

verus! {

// ---------------------------------------------------------------------------
// Files and directories
// ---------------------------------------------------------------------------

/// The bytes of a file printed in hexadecimal on several lines. Lines that are
/// blank are skipped; the first line that is not hexadecimal is the error.
pub open spec fn download(ls: Seq<Seq<char>>) -> Result<Seq<u8>, ErrorView>
    decreases ls.len(),
{
    if ls.len() == 0 {
        Ok(Seq::empty())
    } else {
        match download(ls.drop_last()) {
            Err(e) => Err(e),
            Ok(bytes) => {
                let line = text::trimmed(ls.last());
                if line.len() == 0 {
                    Ok(bytes)
                } else {
                    match hex::hex_bytes(line) {
                        Ok(chunk) => Ok(bytes + chunk),
                        Err(e) => Err(e),
                    }
                }
            },
        }
    }
}

/// The names in a directory printed in hexadecimal, one on each line. Lines that
/// are blank are skipped; the first line that is no name is the error.
pub open spec fn listing(ls: Seq<Seq<char>>) -> Result<Seq<Seq<char>>, ErrorView>
    decreases ls.len(),
{
    if ls.len() == 0 {
        Ok(Seq::empty())
    } else {
        match listing(ls.drop_last()) {
            Err(e) => Err(e),
            Ok(names) => {
                let line = text::trimmed(ls.last());
                if line.len() == 0 {
                    Ok(names)
                } else {
                    match hex::hex_string(line) {
                        Ok(name) => Ok(names.push(name)),
                        Err(e) => Err(e),
                    }
                }
            },
        }
    }
}

proof fn lemma_download_failed(ls: Seq<Seq<char>>, k: int, e: ErrorView)
    requires
        0 <= k <= ls.len(),
        download(ls.take(k)) == Err::<Seq<u8>, ErrorView>(e),
    ensures
        download(ls) == Err::<Seq<u8>, ErrorView>(e),
    decreases ls.len(),
{
    if k == ls.len() {
        assert(ls.take(k) =~= ls);
    } else {
        assert(ls.drop_last().take(k) =~= ls.take(k));
        lemma_download_failed(ls.drop_last(), k, e);
    }
}

proof fn lemma_listing_failed(ls: Seq<Seq<char>>, k: int, e: ErrorView)
    requires
        0 <= k <= ls.len(),
        listing(ls.take(k)) == Err::<Seq<Seq<char>>, ErrorView>(e),
    ensures
        listing(ls) == Err::<Seq<Seq<char>>, ErrorView>(e),
    decreases ls.len(),
{
    if k == ls.len() {
        assert(ls.take(k) =~= ls);
    } else {
        assert(ls.drop_last().take(k) =~= ls.take(k));
        lemma_listing_failed(ls.drop_last(), k, e);
    }
}

/// Reads the bytes of a file from what the device printed.
pub fn parse_download(output: &str) -> (r: Result<Vec<u8>, MpError>)
    ensures
        error::outcome(r) == download(text::lines(output@)),
{
    let ls: Vec<Vec<char>> = split_lines(output);
    let ghost all = text::lines(output@);
    let mut bytes: Vec<u8> = Vec::new();
    let mut i: usize = 0;
    assert(bytes@ =~= Seq::empty());
    while i < ls.len()
        invariant
            i <= ls.len(),
            all == text::lines(output@),
            text::texts(ls@) == all,
            download(all.take(i as int)) == Ok::<Seq<u8>, ErrorView>(bytes@),
        decreases ls.len() - i,
    {
        assert(all.take(i + 1).drop_last() =~= all.take(i as int));
        assert(all.take(i + 1).last() == ls@[i as int]@);
        let line: &[char] = trim(ls[i].as_slice());
        if line.len() > 0 {
            match parse_hex_bytes(from_chars(line).as_str()) {
                Ok(mut chunk) => {
                    let ghost before = bytes@;
                    let ghost added = chunk@;
                    bytes.append(&mut chunk);
                    assert(bytes@ =~= before + added);
                },
                Err(e) => {
                    proof {
                        lemma_download_failed(all, i + 1, e@);
                    }
                    return Err(e);
                },
            }
        }
        i = i + 1;
    }
    assert(all.take(i as int) =~= all);
    Ok(bytes)
}

/// The value of a listing.
pub open spec fn names_outcome(r: Result<Vec<String>, MpError>) -> Result<
    Seq<Seq<char>>,
    ErrorView,
> {
    match r {
        Ok(v) => Ok(scripts::strings(v@)),
        Err(e) => Err(e@),
    }
}

/// Reads the names in a directory from what the device printed.
pub fn parse_listing(output: &str) -> (r: Result<Vec<String>, MpError>)
    ensures
        names_outcome(r) == listing(text::lines(output@)),
{
    let ls: Vec<Vec<char>> = split_lines(output);
    let ghost all = text::lines(output@);
    let mut names: Vec<String> = Vec::new();
    let mut i: usize = 0;
    assert(scripts::strings(names@) =~= Seq::empty());
    while i < ls.len()
        invariant
            i <= ls.len(),
            all == text::lines(output@),
            text::texts(ls@) == all,
            listing(all.take(i as int)) == Ok::<Seq<Seq<char>>, ErrorView>(
                scripts::strings(names@),
            ),
        decreases ls.len() - i,
    {
        assert(all.take(i + 1).drop_last() =~= all.take(i as int));
        assert(all.take(i + 1).last() == ls@[i as int]@);
        let line: &[char] = trim(ls[i].as_slice());
        if line.len() > 0 {
            match parse_hex_string(from_chars(line).as_str()) {
                Ok(name) => {
                    let ghost before = scripts::strings(names@);
                    names.push(name);
                    assert(scripts::strings(names@) =~= before.push(name@));
                },
                Err(e) => {
                    proof {
                        lemma_listing_failed(all, i + 1, e@);
                    }
                    return Err(e);
                },
            }
        }
        i = i + 1;
    }
    assert(all.take(i as int) =~= all);
    Ok(names)
}

// ---------------------------------------------------------------------------
// Lines of the form `key:value`
// ---------------------------------------------------------------------------

/// The value of a text as a number of 64 bits.
pub open spec fn u64_value(s: Seq<char>) -> Option<u64> {
    match text::unsigned_value(s, u64::MAX as nat) {
        Some(v) => Some(v as u64),
        None => None,
    }
}

/// The value of a text as a number of 32 bits.
pub open spec fn u32_value(s: Seq<char>) -> Option<u32> {
    match text::unsigned_value(s, u32::MAX as nat) {
        Some(v) => Some(v as u32),
        None => None,
    }
}

/// The key and the value on a line: what stands before and after its first colon.
pub open spec fn key_value(line: Seq<char>) -> Option<(Seq<char>, Seq<char>)> {
    text::split_at_first(text::trimmed(line), ':')
}

fn split_key_value<'a>(line: &'a [char]) -> (r: Option<(&'a [char], &'a [char])>)
    ensures
        match r {
            Some((key, value)) => key_value(line@) == Some((key@, value@)),
            None => key_value(line@) is None,
        },
{
    let line: &'a [char] = trim(line);
    proof {
        text::lemma_position(line@, ':');
    }
    let n: usize = line.len();
    match find(line, ':') {
        Some(k) => {
            let key: &'a [char] = slice_subrange(line, 0, k);
            let value: &'a [char] = slice_subrange(line, k + 1, n);
            assert(key@ =~= line@.take(k as int));
            assert(value@ =~= line@.skip(k + 1));
            Some((key, value))
        },
        None => None,
    }
}

fn is_key(key: &[char], name: &str) -> (r: bool)
    ensures
        r == (key@ == name@),
{
    chars_eq(key, to_chars(name).as_slice())
}

fn parse_u64(s: &[char]) -> (r: Option<u64>)
    ensures
        r == u64_value(s@),
{
    parse_unsigned(s, u64::MAX)
}

fn parse_u32(s: &[char]) -> (r: Option<u32>)
    ensures
        r == u32_value(s@),
{
    match parse_unsigned(s, u32::MAX as u64) {
        Some(v) => Some(v as u32),
        None => None,
    }
}

// ---------------------------------------------------------------------------
// Device information
// ---------------------------------------------------------------------------

/// Device information returned by `device_info()`.
#[derive(Debug)]
pub struct DeviceInfo {
    pub version: String,
    pub platform: String,
    pub machine: String,
    pub mem_free: Option<u64>,
    pub fs_total: Option<u64>,
    pub fs_free: Option<u64>,
}

/// The mathematical value of a `DeviceInfo`.
pub struct InfoView {
    pub version: Seq<char>,
    pub platform: Seq<char>,
    pub machine: Seq<char>,
    pub mem_free: Option<u64>,
    pub fs_total: Option<u64>,
    pub fs_free: Option<u64>,
}

impl View for DeviceInfo {
    type V = InfoView;

    open spec fn view(&self) -> InfoView {
        InfoView {
            version: self.version@,
            platform: self.platform@,
            machine: self.machine@,
            mem_free: self.mem_free,
            fs_total: self.fs_total,
            fs_free: self.fs_free,
        }
    }
}

/// Nothing known.
pub open spec fn no_info() -> InfoView {
    InfoView {
        version: Seq::empty(),
        platform: Seq::empty(),
        machine: Seq::empty(),
        mem_free: None,
        fs_total: None,
        fs_free: None,
    }
}

impl Default for DeviceInfo {
    fn default() -> (r: DeviceInfo)
        ensures
            r@ == no_info(),
    {
        DeviceInfo {
            version: String::new(),
            platform: String::new(),
            machine: String::new(),
            mem_free: None,
            fs_total: None,
            fs_free: None,
        }
    }
}

/// What one more line says of a device.
pub open spec fn info_line(info: InfoView, line: Seq<char>) -> InfoView {
    match key_value(line) {
        None => info,
        Some((key, value)) => {
            if key == "version"@ {
                InfoView { version: value, ..info }
            } else if key == "platform"@ {
                InfoView { platform: value, ..info }
            } else if key == "machine"@ {
                InfoView { machine: value, ..info }
            } else if key == "mem_free"@ {
                InfoView { mem_free: u64_value(value), ..info }
            } else if key == "fs_total"@ {
                InfoView { fs_total: u64_value(value), ..info }
            } else if key == "fs_free"@ {
                InfoView { fs_free: u64_value(value), ..info }
            } else {
                info
            }
        },
    }
}

/// What lines say of a device: the last line with a key counts.
pub open spec fn info_of(ls: Seq<Seq<char>>) -> InfoView
    decreases ls.len(),
{
    if ls.len() == 0 {
        no_info()
    } else {
        info_line(info_of(ls.drop_last()), ls.last())
    }
}

/// Reads what the device printed of itself.
pub fn parse_info(output: &str) -> (info: DeviceInfo)
    ensures
        info@ == info_of(text::lines(output@)),
{
    let ls: Vec<Vec<char>> = split_lines(output);
    let ghost all = text::lines(output@);
    let mut info: DeviceInfo = DeviceInfo::default();
    let mut i: usize = 0;
    assert(all.take(0) =~= Seq::empty());
    while i < ls.len()
        invariant
            i <= ls.len(),
            text::texts(ls@) == all,
            info@ == info_of(all.take(i as int)),
        decreases ls.len() - i,
    {
        assert(all.take(i + 1).drop_last() =~= all.take(i as int));
        assert(all.take(i + 1).last() == ls@[i as int]@);
        match split_key_value(ls[i].as_slice()) {
            None => {},
            Some((key, value)) => {
                if is_key(key, "version") {
                    info.version = from_chars(value);
                } else if is_key(key, "platform") {
                    info.platform = from_chars(value);
                } else if is_key(key, "machine") {
                    info.machine = from_chars(value);
                } else if is_key(key, "mem_free") {
                    info.mem_free = parse_u64(value);
                } else if is_key(key, "fs_total") {
                    info.fs_total = parse_u64(value);
                } else if is_key(key, "fs_free") {
                    info.fs_free = parse_u64(value);
                }
            },
        }
        i = i + 1;
    }
    assert(all.take(i as int) =~= all);
    info
}

// ---------------------------------------------------------------------------
// File status
// ---------------------------------------------------------------------------

/// File/directory status on the device.
#[derive(Debug)]
pub struct FileStat {
    pub path: String,
    pub is_dir: bool,
    pub size: u64,
    pub mtime: Option<u64>,
}

/// The mathematical value of a `FileStat`.
pub struct StatView {
    pub path: Seq<char>,
    pub is_dir: bool,
    pub size: u64,
    pub mtime: Option<u64>,
}

impl View for FileStat {
    type V = StatView;

    open spec fn view(&self) -> StatView {
        StatView { path: self.path@, is_dir: self.is_dir, size: self.size, mtime: self.mtime }
    }
}

/// The numbers that a status is made of.
pub struct StatFields {
    pub mode: u32,
    pub size: u64,
    pub mtime: Option<u64>,
}

/// What one more line says of a file. A number that cannot be read counts as zero,
/// and a time of zero as no time.
pub open spec fn stat_line(f: StatFields, line: Seq<char>) -> StatFields {
    match key_value(line) {
        None => f,
        Some((key, value)) => {
            if key == "mode"@ {
                StatFields {
                    mode: match u32_value(value) {
                        Some(v) => v,
                        None => 0,
                    },
                    ..f
                }
            } else if key == "size"@ {
                StatFields {
                    size: match u64_value(value) {
                        Some(v) => v,
                        None => 0,
                    },
                    ..f
                }
            } else if key == "mtime"@ {
                StatFields {
                    mtime: match u64_value(value) {
                        Some(v) => if v > 0 {
                            Some(v)
                        } else {
                            f.mtime
                        },
                        None => f.mtime,
                    },
                    ..f
                }
            } else {
                f
            }
        },
    }
}

/// What lines say of a file.
pub open spec fn stat_fields(ls: Seq<Seq<char>>) -> StatFields
    decreases ls.len(),
{
    if ls.len() == 0 {
        StatFields { mode: 0, size: 0, mtime: None }
    } else {
        stat_line(stat_fields(ls.drop_last()), ls.last())
    }
}

/// Whether a file mode is that of a directory.
pub open spec fn is_dir_mode(mode: u32) -> bool {
    mode & 0o170000u32 == 0o040000u32
}

/// The status that lines give for a file.
pub open spec fn stat_of(path: Seq<char>, ls: Seq<Seq<char>>) -> StatView {
    let f = stat_fields(ls);
    StatView { path, is_dir: is_dir_mode(f.mode), size: f.size, mtime: f.mtime }
}

/// Reads the status of a file from what the device printed.
pub fn parse_stat(path: &str, output: &str) -> (r: FileStat)
    ensures
        r@ == stat_of(path@, text::lines(output@)),
{
    let ls: Vec<Vec<char>> = split_lines(output);
    let ghost all = text::lines(output@);
    let mut mode: u32 = 0;
    let mut size: u64 = 0;
    let mut mtime: Option<u64> = None;
    let mut i: usize = 0;
    assert(all.take(0) =~= Seq::empty());
    while i < ls.len()
        invariant
            i <= ls.len(),
            text::texts(ls@) == all,
            stat_fields(all.take(i as int)) == (StatFields { mode, size, mtime }),
        decreases ls.len() - i,
    {
        assert(all.take(i + 1).drop_last() =~= all.take(i as int));
        assert(all.take(i + 1).last() == ls@[i as int]@);
        match split_key_value(ls[i].as_slice()) {
            None => {},
            Some((key, value)) => {
                if is_key(key, "mode") {
                    mode = parse_u32(value).unwrap_or(0);
                } else if is_key(key, "size") {
                    size = parse_u64(value).unwrap_or(0);
                } else if is_key(key, "mtime") {
                    let v: u64 = parse_u64(value).unwrap_or(0);
                    if v > 0 {
                        mtime = Some(v);
                    }
                }
            },
        }
        i = i + 1;
    }
    assert(all.take(i as int) =~= all);
    FileStat { path: path.to_owned(), is_dir: mode & 0o170000 == 0o040000, size, mtime }
}

} // verus!
