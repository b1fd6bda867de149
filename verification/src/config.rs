//! Boot configuration parser.
//!
//! Parses the `key=value` text of the boot configuration file: one pair
//! per line, `#` introduces a comment, blank lines are skipped, CRLF and
//! LF both accepted, whitespace trimmed around keys and values, unknown
//! keys ignored for forward compatibility. The `kernel` and `init` keys
//! are required; their ASCII values are widened to null-terminated
//! UTF-16 paths for the firmware's file protocol. When a key repeats,
//! the last assignment wins.

use vstd::prelude::*;

use crate::error::BootError;

verus! {

/// Maximum number of characters in a configuration path value.
pub const MAX_PATH_LEN: usize = 256;

/// Maximum size of the boot configuration file in bytes.
pub const MAX_CONFIG_SIZE: usize = 4096;

/// A null-terminated UTF-16 path string, widened from ASCII.
#[derive(Clone, Debug)]
pub struct Utf16Path {
    /// The code units, ending in a single null terminator.
    pub buf: Vec<u16>,
    /// Number of code units before the null terminator.
    pub len: usize,
}

impl Utf16Path {
    /// The buffer holds exactly `len` code units and the terminator, the
    /// length is within bounds, and the terminator is null.
    pub open spec fn wf(self) -> bool {
        &&& self.len <= MAX_PATH_LEN
        &&& self.buf@.len() == self.len + 1
        &&& self.buf@[self.len as int] == 0u16
    }

    /// The null-terminated code units, for handing to the firmware's
    /// file-open call.
    pub fn as_units(&self) -> (r: &Vec<u16>)
        ensures
            r@ == self.buf@,
    {
        &self.buf
    }
}

/// Paths loaded from the boot configuration.
#[derive(Clone, Debug)]
pub struct BootConfig {
    /// UTF-16 path of the kernel ELF on the EFI system partition.
    pub kernel_path: Utf16Path,
    /// UTF-16 path of the init ELF on the EFI system partition.
    pub init_path: Utf16Path,
}

// ── Character classes and trimming ───────────────────────────────────────

/// Space, tab or carriage return.
pub open spec fn is_ws(b: u8) -> bool {
    b == 32 || b == 9 || b == 13
}

/// The sequence with leading whitespace removed.
pub open spec fn ltrim(s: Seq<u8>) -> Seq<u8>
    decreases s.len(),
{
    if s.len() > 0 && is_ws(s[0]) {
        ltrim(s.drop_first())
    } else {
        s
    }
}

/// The sequence with trailing whitespace removed.
pub open spec fn rtrim(s: Seq<u8>) -> Seq<u8>
    decreases s.len(),
{
    if s.len() > 0 && is_ws(s.last()) {
        rtrim(s.drop_last())
    } else {
        s
    }
}

/// The sequence with whitespace removed from both ends.
pub open spec fn trimmed(s: Seq<u8>) -> Seq<u8> {
    rtrim(ltrim(s))
}

/// Trim the byte range `[start, end)` of `data`: the returned bounds
/// delimit the same bytes with leading and trailing whitespace removed.
pub fn trim_ascii(data: &Vec<u8>, start: usize, end: usize) -> (r: (usize, usize))
    requires
        start <= end <= data@.len(),
    ensures
        start <= r.0 <= r.1 <= end,
        data@.subrange(r.0 as int, r.1 as int) == trimmed(
            data@.subrange(start as int, end as int),
        ),
{
    let mut s2 = start;
    while s2 < end && (data[s2] == 32 || data[s2] == 9 || data[s2] == 13)
        invariant
            start <= s2 <= end <= data@.len(),
            ltrim(data@.subrange(start as int, end as int)) == ltrim(
                data@.subrange(s2 as int, end as int),
            ),
        decreases end - s2,
    {
        proof {
            assert(data@.subrange(s2 as int, end as int).drop_first() =~= data@.subrange(
                s2 + 1,
                end as int,
            ));
        }
        s2 += 1;
    }
    proof {
        assert(ltrim(data@.subrange(s2 as int, end as int)) == data@.subrange(
            s2 as int,
            end as int,
        ));
    }
    let mut e2 = end;
    while e2 > s2 && (data[e2 - 1] == 32 || data[e2 - 1] == 9 || data[e2 - 1] == 13)
        invariant
            start <= s2 <= e2 <= end <= data@.len(),
            ltrim(data@.subrange(start as int, end as int)) == data@.subrange(
                s2 as int,
                end as int,
            ),
            rtrim(data@.subrange(s2 as int, end as int)) == rtrim(
                data@.subrange(s2 as int, e2 as int),
            ),
        decreases e2,
    {
        proof {
            assert(data@.subrange(s2 as int, e2 as int).drop_last() =~= data@.subrange(
                s2 as int,
                e2 - 1,
            ));
        }
        e2 -= 1;
    }
    proof {
        assert(rtrim(data@.subrange(s2 as int, e2 as int)) == data@.subrange(
            s2 as int,
            e2 as int,
        ));
    }
    (s2, e2)
}

// ── Lines ────────────────────────────────────────────────────────────────

/// Index of the first line feed at or after `i`, or the length.
pub open spec fn find_nl(s: Seq<u8>, i: int) -> int
    decreases s.len() - i,
{
    if i < 0 || i >= s.len() {
        s.len() as int
    } else if s[i] == 10 {
        i
    } else {
        find_nl(s, i + 1)
    }
}

/// The first line feed is where the scan says, and nothing before it is
/// one.
proof fn lemma_find_nl(s: Seq<u8>, i: int)
    requires
        0 <= i <= s.len(),
    ensures
        i <= find_nl(s, i) <= s.len(),
        find_nl(s, i) < s.len() ==> s[find_nl(s, i)] == 10,
        forall|k: int| i <= k < find_nl(s, i) ==> s[k] != 10,
    decreases s.len() - i,
{
    if i < s.len() && s[i] != 10 {
        lemma_find_nl(s, i + 1);
    }
}

/// The lines of `s` from byte `pos` on, split at line feeds; a line feed
/// as the final byte ends the last line rather than opening an empty
/// one.
pub open spec fn lines_from(s: Seq<u8>, pos: int) -> Seq<Seq<u8>>
    decreases s.len() - pos,
    via lines_from_decreases
{
    if !(0 <= pos <= s.len()) {
        Seq::empty()
    } else {
        let p = find_nl(s, pos);
        if p >= s.len() || p + 1 >= s.len() {
            seq![s.subrange(pos, p)]
        } else {
            seq![s.subrange(pos, p)] + lines_from(s, p + 1)
        }
    }
}

#[via_fn]
proof fn lines_from_decreases(s: Seq<u8>, pos: int) {
    if 0 <= pos <= s.len() {
        lemma_find_nl(s, pos);
    }
}

/// Index of the first `=` at or after `i`, or the length.
pub open spec fn find_eq(s: Seq<u8>, i: int) -> int
    decreases s.len() - i,
{
    if i < 0 || i >= s.len() {
        s.len() as int
    } else if s[i] == 61 {
        i
    } else {
        find_eq(s, i + 1)
    }
}

/// A scan that saw no `=` before an `=` at `m` names `m`; a scan that
/// never sees one names the length.
proof fn lemma_find_eq_at(s: Seq<u8>, i: int, m: int)
    requires
        0 <= i <= m <= s.len(),
        forall|k: int| i <= k < m ==> s[k] != 61,
        m < s.len() ==> s[m] == 61,
        m == s.len() || s[m] == 61,
    ensures
        find_eq(s, i) == m,
    decreases m - i,
{
    if i < m {
        lemma_find_eq_at(s, i + 1, m);
    }
}

/// The bytes of the `kernel` key.
pub open spec fn kernel_key() -> Seq<u8> {
    seq![107u8, 101u8, 114u8, 110u8, 101u8, 108u8]
}

/// The bytes of the `init` key.
pub open spec fn init_key() -> Seq<u8> {
    seq![105u8, 110u8, 105u8, 116u8]
}

/// The value is short enough and pure ASCII, so it can widen to UTF-16.
pub open spec fn ascii_ok(v: Seq<u8>) -> bool {
    &&& v.len() <= MAX_PATH_LEN
    &&& forall|i: int| 0 <= i < v.len() ==> (#[trigger] v[i]) <= 0x7F
}

/// The UTF-16 widening of an ASCII value, with the null terminator.
pub open spec fn widened(v: Seq<u8>) -> Seq<u16> {
    Seq::new(v.len() + 1, |i: int| if i < v.len() { v[i] as u16 } else { 0u16 })
}

/// The line is blank or a comment after trimming.
pub open spec fn line_skipped(l: Seq<u8>) -> bool {
    trimmed(l).len() == 0 || trimmed(l)[0] == 35
}

/// The trimmed key of a `key=value` line.
pub open spec fn line_key(l: Seq<u8>) -> Seq<u8> {
    let t = trimmed(l);
    trimmed(t.take(find_eq(t, 0)))
}

/// The trimmed value of a `key=value` line.
pub open spec fn line_value(l: Seq<u8>) -> Seq<u8> {
    let t = trimmed(l);
    trimmed(t.skip(find_eq(t, 0) + 1))
}

/// The line stops the parse: it is no comment and has no `=`, or it
/// assigns an unusable value to a required key.
pub open spec fn line_err(l: Seq<u8>) -> bool {
    !line_skipped(l) && {
        let t = trimmed(l);
        ||| find_eq(t, 0) == t.len()
        ||| (line_key(l) == kernel_key() && !ascii_ok(line_value(l)))
        ||| (line_key(l) == init_key() && !ascii_ok(line_value(l)))
    }
}

/// The line assigns a value to `key`.
pub open spec fn line_assigns(l: Seq<u8>, key: Seq<u8>) -> bool {
    &&& !line_skipped(l)
    &&& find_eq(trimmed(l), 0) < trimmed(l).len()
    &&& line_key(l) == key
}

/// Some line among the first `i` stops the parse.
pub open spec fn scan_err(ls: Seq<Seq<u8>>, i: int) -> bool
    decreases i,
{
    if i <= 0 {
        false
    } else {
        scan_err(ls, i - 1) || line_err(ls[i - 1])
    }
}

/// The value of the last assignment to `key` among the first `i` lines.
pub open spec fn last_value(ls: Seq<Seq<u8>>, i: int, key: Seq<u8>) -> Option<Seq<u8>>
    decreases i,
{
    if i <= 0 {
        None
    } else if 0 <= i - 1 < ls.len() && line_assigns(ls[i - 1], key) {
        Some(line_value(ls[i - 1]))
    } else {
        last_value(ls, i - 1, key)
    }
}

/// The whole configuration parses: no line stops the parse, and both
/// required keys are assigned.
pub open spec fn cfg_ok(s: Seq<u8>) -> bool {
    let ls = lines_from(s, 0);
    &&& !scan_err(ls, ls.len() as int)
    &&& last_value(ls, ls.len() as int, kernel_key()) is Some
    &&& last_value(ls, ls.len() as int, init_key()) is Some
}

// ── Widening ─────────────────────────────────────────────────────────────

/// Widen the ASCII byte range `[start, end)` of `data` into `out`.
///
/// Returns `false` if any byte is non-ASCII or the range exceeds
/// [`MAX_PATH_LEN`] characters. On success the buffer holds the widened
/// code units followed by a null terminator.
pub fn ascii_to_utf16(data: &Vec<u8>, start: usize, end: usize, out: &mut Utf16Path) -> (r: bool)
    requires
        start <= end <= data@.len(),
    ensures
        r == ascii_ok(data@.subrange(start as int, end as int)),
        r ==> final(out).wf(),
        r ==> final(out).len == end - start,
        r ==> final(out).buf@ == widened(data@.subrange(start as int, end as int)),
{
    if end - start > MAX_PATH_LEN {
        proof {
            assert(data@.subrange(start as int, end as int).len() == end - start);
        }
        return false;
    }
    let mut buf: Vec<u16> = Vec::new();
    let mut i = start;
    while i < end
        invariant
            start <= i <= end <= data@.len(),
            buf@.len() == i - start,
            forall|k: int| 0 <= k < i - start ==> buf@[k] == data@[start + k] as u16,
            forall|k: int| start <= k < i ==> data@[k] <= 0x7F,
        decreases end - i,
    {
        let b = data[i];
        if b > 0x7F {
            proof {
                assert(data@.subrange(start as int, end as int)[i - start] == data@[i as int]);
            }
            return false;
        }
        buf.push(b as u16);
        i += 1;
    }
    buf.push(0u16);
    out.len = end - start;
    out.buf = buf;
    proof {
        assert(out.buf@ =~= widened(data@.subrange(start as int, end as int)));
    }
    true
}

// ── The parser ───────────────────────────────────────────────────────────

/// Parse a boot configuration into the kernel and init paths.
///
/// One `key=value` pair per line, `#` comments and blank lines skipped,
/// whitespace trimmed, unknown keys ignored, the last assignment to a
/// key winning. A line without `=`, a non-ASCII or over-long value for
/// a required key, or a missing required key is a configuration error.
#[verifier::rlimit(60)]
pub fn parse_config(data: &Vec<u8>) -> (r: Result<BootConfig, BootError>)
    ensures
        r is Ok <==> cfg_ok(data@),
        r is Err ==> r matches Err(BootError::InvalidConfig(_)),
        r matches Ok(cfg) ==> {
            let ls = lines_from(data@, 0);
            &&& cfg.kernel_path.wf()
            &&& cfg.init_path.wf()
            &&& cfg.kernel_path.buf@ == widened(
                last_value(ls, ls.len() as int, kernel_key())->0,
            )
            &&& cfg.kernel_path.len == last_value(ls, ls.len() as int, kernel_key())->0.len()
            &&& cfg.init_path.buf@ == widened(last_value(ls, ls.len() as int, init_key())->0)
            &&& cfg.init_path.len == last_value(ls, ls.len() as int, init_key())->0.len()
        },
{
    let ghost ls = lines_from(data@, 0);
    let n = data.len();
    let mut kernel_path: Option<Utf16Path> = None;
    let mut init_path: Option<Utf16Path> = None;
    let mut pos: usize = 0;
    let ghost mut li: int = 0;
    proof {
        lemma_lines_bound(data@, 0);
    }
    loop
        invariant_except_break
            n == data@.len(),
            ls == lines_from(data@, 0),
            0 <= pos <= n,
            0 <= li < ls.len(),
            ls.skip(li) == lines_from(data@, pos as int),
            !scan_err(ls, li),
            match kernel_path {
                Some(p) => {
                    &&& last_value(ls, li, kernel_key()) is Some
                    &&& p.wf()
                    &&& p.buf@ == widened(last_value(ls, li, kernel_key())->0)
                    &&& p.len == last_value(ls, li, kernel_key())->0.len()
                },
                None => last_value(ls, li, kernel_key()) is None,
            },
            match init_path {
                Some(p) => {
                    &&& last_value(ls, li, init_key()) is Some
                    &&& p.wf()
                    &&& p.buf@ == widened(last_value(ls, li, init_key())->0)
                    &&& p.len == last_value(ls, li, init_key())->0.len()
                },
                None => last_value(ls, li, init_key()) is None,
            },
        ensures
            n == data@.len(),
            ls == lines_from(data@, 0),
            !scan_err(ls, ls.len() as int),
            match kernel_path {
                Some(p) => {
                    &&& last_value(ls, ls.len() as int, kernel_key()) is Some
                    &&& p.wf()
                    &&& p.buf@ == widened(last_value(ls, ls.len() as int, kernel_key())->0)
                    &&& p.len == last_value(ls, ls.len() as int, kernel_key())->0.len()
                },
                None => last_value(ls, ls.len() as int, kernel_key()) is None,
            },
            match init_path {
                Some(p) => {
                    &&& last_value(ls, ls.len() as int, init_key()) is Some
                    &&& p.wf()
                    &&& p.buf@ == widened(last_value(ls, ls.len() as int, init_key())->0)
                    &&& p.len == last_value(ls, ls.len() as int, init_key())->0.len()
                },
                None => last_value(ls, ls.len() as int, init_key()) is None,
            },
        decreases n - pos,
    {
        // find the end of the current line
        let mut nl = pos;
        while nl < n && data[nl] != 10
            invariant
                pos <= nl <= n,
                n == data@.len(),
                forall|k: int| pos <= k < nl ==> data@[k] != 10,
            decreases n - nl,
        {
            nl += 1;
        }
        proof {
            lemma_find_nl(data@, pos as int);
            assert(find_nl(data@, pos as int) == nl) by {
                lemma_find_nl_at(data@, pos as int, nl as int);
            }
            assert(lines_from(data@, pos as int)[0] == data@.subrange(pos as int, nl as int));
            assert(ls.skip(li)[0] == ls[li]);
            assert(ls[li] == data@.subrange(pos as int, nl as int));
        }
        let ghost line = data@.subrange(pos as int, nl as int);
        // classify the line
        let (ts, te) = trim_ascii(data, pos, nl);
        let ghost t = trimmed(line);
        proof {
            assert(t == data@.subrange(ts as int, te as int));
        }
        if ts == te || data[ts] == 35 {
            proof {
                assert(line_skipped(line));
                assert(!line_err(line));
                lemma_scan_step(ls, li, kernel_key());
                lemma_scan_step(ls, li, init_key());
            }
        } else {
            // find the separator inside the trimmed line
            let mut q = ts;
            while q < te && data[q] != 61
                invariant
                    ts <= q <= te <= n,
                    n == data@.len(),
                    forall|k: int| ts <= k < q ==> data@[k] != 61,
                decreases te - q,
            {
                q += 1;
            }
            proof {
                assert(find_eq(t, 0) == q - ts) by {
                    assert forall|k: int| 0 <= k < q - ts implies t[k] != 61 by {
                        assert(t[k] == data@[ts + k]);
                    }
                    if q < te {
                        assert(t[q - ts] == data@[q as int]);
                    }
                    lemma_find_eq_at(t, 0, q - ts);
                }
            }
            if q == te {
                proof {
                    assert(!line_skipped(line));
                    assert(line_err(line));
                    assert(scan_err(ls, li + 1));
                    lemma_scan_err_grows(ls, li + 1, ls.len() as int);
                }
                return Err(BootError::InvalidConfig("missing '=' in line"));
            }
            let (ks, ke) = trim_ascii(data, ts, q);
            proof {
                assert(t.take(q - ts) =~= data@.subrange(ts as int, q as int));
                assert(line_key(line) == data@.subrange(ks as int, ke as int));
            }
            let (vs, ve) = trim_ascii(data, q + 1, te);
            proof {
                assert(t.skip(q - ts + 1) =~= data@.subrange(q + 1, te as int));
                assert(line_value(line) == data@.subrange(vs as int, ve as int));
            }
            let is_kernel = ke - ks == 6 && data[ks] == 107 && data[ks + 1] == 101
                && data[ks + 2] == 114 && data[ks + 3] == 110 && data[ks + 4] == 101
                && data[ks + 5] == 108;
            let is_init = ke - ks == 4 && data[ks] == 105 && data[ks + 1] == 110
                && data[ks + 2] == 105 && data[ks + 3] == 116;
            proof {
                if is_kernel {
                    assert(data@.subrange(ks as int, ke as int) =~= kernel_key());
                } else {
                    assert(data@.subrange(ks as int, ke as int) != kernel_key()) by {
                        if data@.subrange(ks as int, ke as int) == kernel_key() {
                            assert(ke - ks == 6);
                            assert(data@[ks as int] == kernel_key()[0]);
                            assert(data@[ks + 1] == kernel_key()[1]);
                            assert(data@[ks + 2] == kernel_key()[2]);
                            assert(data@[ks + 3] == kernel_key()[3]);
                            assert(data@[ks + 4] == kernel_key()[4]);
                            assert(data@[ks + 5] == kernel_key()[5]);
                        }
                    }
                }
                if is_init {
                    assert(data@.subrange(ks as int, ke as int) =~= init_key());
                } else {
                    assert(data@.subrange(ks as int, ke as int) != init_key()) by {
                        if data@.subrange(ks as int, ke as int) == init_key() {
                            assert(ke - ks == 4);
                            assert(data@[ks as int] == init_key()[0]);
                            assert(data@[ks + 1] == init_key()[1]);
                            assert(data@[ks + 2] == init_key()[2]);
                            assert(data@[ks + 3] == init_key()[3]);
                        }
                    }
                }
            }
            if is_kernel {
                let mut p = Utf16Path { buf: Vec::new(), len: 0 };
                if !ascii_to_utf16(data, vs, ve, &mut p) {
                    proof {
                        assert(line_err(line));
                        assert(scan_err(ls, li + 1));
                        lemma_scan_err_grows(ls, li + 1, ls.len() as int);
                    }
                    return Err(BootError::InvalidConfig("kernel path invalid"));
                }
                kernel_path = Some(p);
                proof {
                    assert(line_assigns(line, kernel_key()));
                    assert(!line_err(line));
                    lemma_scan_step(ls, li, init_key());
                }
            } else if is_init {
                let mut p = Utf16Path { buf: Vec::new(), len: 0 };
                if !ascii_to_utf16(data, vs, ve, &mut p) {
                    proof {
                        assert(line_err(line));
                        assert(scan_err(ls, li + 1));
                        lemma_scan_err_grows(ls, li + 1, ls.len() as int);
                    }
                    return Err(BootError::InvalidConfig("init path invalid"));
                }
                init_path = Some(p);
                proof {
                    assert(line_assigns(line, init_key()));
                    assert(!line_err(line));
                    lemma_scan_step(ls, li, kernel_key());
                }
            } else {
                proof {
                    assert(!line_err(line));
                    lemma_scan_step(ls, li, kernel_key());
                    lemma_scan_step(ls, li, init_key());
                }
            }
        }
        proof {
            li = li + 1;
        }
        if nl >= n || nl + 1 >= n {
            proof {
                assert(lines_from(data@, pos as int).len() == 1);
                assert(ls.skip(li - 1).len() == 1);
                assert(li == ls.len());
            }
            break ;
        }
        proof {
            assert(lines_from(data@, pos as int) == seq![
                data@.subrange(pos as int, nl as int),
            ] + lines_from(data@, nl + 1));
            assert(ls.skip(li - 1).skip(1) =~= ls.skip(li));
            assert((seq![data@.subrange(pos as int, nl as int)] + lines_from(data@, nl + 1)).skip(
                1,
            ) =~= lines_from(data@, nl + 1));
            lemma_lines_bound(data@, nl + 1);
        }
        pos = nl + 1;
    }
    let kernel_path = match kernel_path {
        Some(p) => p,
        None => {
            return Err(BootError::InvalidConfig("missing 'kernel' key"));
        },
    };
    let init_path = match init_path {
        Some(p) => p,
        None => {
            return Err(BootError::InvalidConfig("missing 'init' key"));
        },
    };
    Ok(BootConfig { kernel_path, init_path })
}

/// The line list of a text is never empty.
proof fn lemma_lines_bound(s: Seq<u8>, pos: int)
    requires
        0 <= pos <= s.len(),
    ensures
        lines_from(s, pos).len() >= 1,
    decreases s.len() - pos,
{
    let p = find_nl(s, pos);
    lemma_find_nl(s, pos);
    if !(p >= s.len() || p + 1 >= s.len()) {
        lemma_lines_bound(s, p + 1);
    }
}

/// The newline scan names the position an exhaustive search found.
proof fn lemma_find_nl_at(s: Seq<u8>, i: int, m: int)
    requires
        0 <= i <= m <= s.len(),
        forall|k: int| i <= k < m ==> s[k] != 10,
        m == s.len() || s[m] == 10,
    ensures
        find_nl(s, i) == m,
    decreases m - i,
{
    if i < m {
        lemma_find_nl_at(s, i + 1, m);
    }
}

/// A clean line advances the scan without error and only moves the last
/// value of `key` if it assigns `key`.
proof fn lemma_scan_step(ls: Seq<Seq<u8>>, i: int, key: Seq<u8>)
    requires
        0 <= i < ls.len(),
        !scan_err(ls, i),
        !line_err(ls[i]),
        !line_assigns(ls[i], key),
    ensures
        !scan_err(ls, i + 1),
        last_value(ls, i + 1, key) == last_value(ls, i, key),
{
}

/// An error seen early is still there at the end of the scan.
proof fn lemma_scan_err_grows(ls: Seq<Seq<u8>>, i: int, j: int)
    requires
        0 <= i <= j,
        scan_err(ls, i),
    ensures
        scan_err(ls, j),
    decreases j - i,
{
    if i < j {
        lemma_scan_err_grows(ls, i + 1, j);
    }
}

} // verus!
