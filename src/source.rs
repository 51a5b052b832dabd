//! Rules on the inputs of a run: which files are read, and how, and when
//! their events happened.
use vstd::prelude::*;
use vstd::utf8::encode_utf8;

verus! {

/// The name that stands for standard input, as UTF-8.
pub open spec fn stdin_marker() -> Seq<u8> {
    seq![0x2du8]
}

/// The suffix of a zstd-compressed recording, as UTF-8.
pub open spec fn zstd_suffix() -> Seq<u8> {
    seq![0x2eu8, 0x7au8, 0x73u8, 0x74u8]
}

/// Whether the file name stands for standard input.
pub fn is_stdin_marker(file: &String) -> (r: bool)
    ensures
        r == (encode_utf8(file@) == stdin_marker()),
{
    let b = file.as_str().as_bytes();
    let r = b.len() == 1 && b[0] == 0x2d;
    assert(r ==> b@ =~= stdin_marker());
    r
}

/// How many of the names stand for standard input.
pub open spec fn stdin_count(files: Seq<String>) -> nat
    decreases files.len(),
{
    if files.len() == 0 {
        0
    } else {
        stdin_count(files.drop_last()) + if encode_utf8(files.last()@) == stdin_marker() { 1nat } else { 0nat }
    }
}

/// Whether standard input is named at most once, as a run requires.
pub fn stdin_listed_at_most_once(files: &Vec<String>) -> (r: bool)
    ensures
        r == (stdin_count(files@) <= 1),
{
    let mut count: usize = 0;
    let mut i: usize = 0;
    while i < files.len()
        invariant
            i <= files@.len(),
            count == stdin_count(files@.take(i as int)),
            count <= 1,
        decreases files@.len() - i,
    {
        let hit = is_stdin_marker(&files[i]);
        proof {
            let t = files@.take(i + 1);
            assert(t.drop_last() =~= files@.take(i as int));
            assert(t.last() == files@[i as int]);
        }
        if hit {
            if count == 1 {
                proof {
                    lemma_stdin_count_prefix(files@, i + 1);
                }
                return false;
            }
            count = count + 1;
        }
        i = i + 1;
    }
    assert(files@.take(files@.len() as int) =~= files@);
    true
}

proof fn lemma_stdin_count_prefix(files: Seq<String>, k: int)
    requires
        0 <= k <= files.len(),
    ensures
        stdin_count(files.take(k)) <= stdin_count(files),
    decreases files.len() - k,
{
    if k < files.len() {
        lemma_stdin_count_prefix(files, k + 1);
        let t = files.take(k + 1);
        assert(t.drop_last() =~= files.take(k));
    } else {
        assert(files.take(k) =~= files);
    }
}

/// Whether the file is to be read through a zstd decoder: its name ends in `.zst`.
pub fn is_zstd_name(file: &String) -> (r: bool)
    ensures
        r == (encode_utf8(file@).len() >= 4
            && encode_utf8(file@).subrange(encode_utf8(file@).len() - 4, encode_utf8(file@).len() as int) == zstd_suffix()),
{
    let b = file.as_str().as_bytes();
    if b.len() < 4 {
        return false;
    }
    let n = b.len();
    let r = b[n - 4] == 0x2e && b[n - 3] == 0x7a && b[n - 2] == 0x73 && b[n - 1] == 0x74;
    let ghost tail = b@.subrange(n - 4, n as int);
    assert(r ==> tail =~= zstd_suffix());
    assert(tail == zstd_suffix() ==> r) by {
        if tail == zstd_suffix() {
            assert(tail[0] == b@[n - 4]);
            assert(tail[1] == b@[n - 3]);
            assert(tail[2] == b@[n - 2]);
            assert(tail[3] == b@[n - 1]);
        }
    }
    r
}

/// Nanoseconds in a second.
pub const NANOS_PER_SEC: u64 = 1_000_000_000;

/// The wall-clock time of an event `offset_ns` nanoseconds into a session
/// that started at `start_time` seconds since the epoch, as whole seconds
/// and the nanoseconds past them; none when the seconds do not fit in `i64`.
pub fn absolute_time(start_time: u64, offset_ns: u64) -> (r: Option<(i64, u32)>)
    ensures
        r is Some <==> start_time as int + (offset_ns / NANOS_PER_SEC) as int <= i64::MAX,
        r is Some ==> r->Some_0.0 == start_time as int + (offset_ns / NANOS_PER_SEC) as int
            && r->Some_0.1 == offset_ns % NANOS_PER_SEC,
{
    let whole = offset_ns / NANOS_PER_SEC;
    let frac = offset_ns % NANOS_PER_SEC;
    if start_time > i64::MAX as u64 || whole > i64::MAX as u64 - start_time {
        return None;
    }
    Some(((start_time + whole) as i64, frac as u32))
}

} // verus!
