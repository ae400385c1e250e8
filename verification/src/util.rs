//! Small helpers: sizes written with a K, M or G suffix, decoding of
//! zero-run-length encoded buffers, and collapsing a result whose two sides
//! have one type.
use vstd::prelude::*;
use vstd::string::*;

verus! {

pub open spec fn is_digit(c: u8) -> bool {
    48 <= c <= 57
}

/// The value of a string of decimal digits.
pub open spec fn digits_value(s: Seq<u8>) -> nat
    decreases s.len(),
{
    if s.len() == 0 {
        0
    } else {
        digits_value(s.drop_last()) * 10 + (s.last() - 48) as nat
    }
}

pub open spec fn all_digits(s: Seq<u8>) -> bool {
    forall|i: int| 0 <= i < s.len() ==> is_digit(#[trigger] s[i])
}

/// What parsing an unsigned machine word accepts: an optional `+`, then one
/// or more decimal digits whose value fits.
pub open spec fn decimal_usize(s: Seq<u8>) -> Option<nat> {
    let d = if s.len() > 0 && s[0] == 43 {
        s.drop_first()
    } else {
        s
    };
    if d.len() > 0 && all_digits(d) && digits_value(d) <= usize::MAX {
        Some(digits_value(d))
    } else {
        None
    }
}

/// The factor a size suffix stands for; 1 for anything else.
pub open spec fn size_factor(c: u8) -> nat {
    if c == 75 || c == 107 {
        1024
    } else if c == 77 || c == 109 {
        1024 * 1024
    } else if c == 71 || c == 103 {
        1024 * 1024 * 1024
    } else {
        1
    }
}

/// A size: a number, optionally followed by `K`, `M` or `G` (either case) for
/// kibi-, mebi- or gibibytes.
pub open spec fn human_size(s: Seq<u8>) -> Option<nat> {
    let f = size_factor(s.last());
    let digits = if f > 1 {
        s.drop_last()
    } else {
        s
    };
    match decimal_usize(digits) {
        Some(v) => Some(v * f),
        None => None,
    }
}

proof fn lemma_digits_push(s: Seq<u8>, c: u8)
    ensures
        digits_value(s.push(c)) == digits_value(s) * 10 + (c - 48) as nat,
{
    assert(s.push(c).drop_last() =~= s);
}

/// Parses a decimal number as `usize` parsing does.
fn parse_decimal(s: &[u8]) -> (r: Option<usize>)
    ensures
        r matches Some(v) ==> decimal_usize(s@) == Some(v as nat),
        r is None ==> decimal_usize(s@) is None,
{
    let start: usize = if s.len() > 0 && s[0] == 43 {
        1
    } else {
        0
    };
    let ghost d = if s@.len() > 0 && s@[0] == 43 {
        s@.drop_first()
    } else {
        s@
    };
    assert(d =~= s@.subrange(start as int, s@.len() as int));
    if start >= s.len() {
        return None;
    }
    let mut v: usize = 0;
    let mut i: usize = start;
    while i < s.len()
        invariant
            start <= i <= s@.len(),
            d == s@.subrange(start as int, s@.len() as int),
            d == (if s@.len() > 0 && s@[0] == 43 {
                s@.drop_first()
            } else {
                s@
            }),
            all_digits(s@.subrange(start as int, i as int)),
            v == digits_value(s@.subrange(start as int, i as int)),
        decreases s@.len() - i,
    {
        let c = s[i];
        assert(s@.subrange(start as int, i + 1) =~= s@.subrange(start as int, i as int).push(c));
        proof {
            lemma_digits_push(s@.subrange(start as int, i as int), c);
        }
        if c < 48 || c > 57 {
            assert(d[i - start] == c);
            assert(!is_digit(d[i - start]));
            assert(!all_digits(d));
            return None;
        }
        let digit = (c - 48) as usize;
        match v.checked_mul(10) {
            Some(t) => match t.checked_add(digit) {
                Some(n) => {
                    v = n;
                },
                None => {
                    proof {
                        lemma_digits_prefix_bound(d, (i + 1 - start) as int);
                        assert(d.subrange(0, (i + 1 - start) as int) =~= s@.subrange(start as int, i + 1));
                    }
                    return None;
                },
            },
            None => {
                proof {
                    lemma_digits_prefix_bound(d, (i + 1 - start) as int);
                    assert(d.subrange(0, (i + 1 - start) as int) =~= s@.subrange(start as int, i + 1));
                }
                return None;
            },
        }
        i += 1;
    }
    assert(s@.subrange(start as int, s@.len() as int) =~= d);
    Some(v)
}

/// A number never has a smaller value than its own prefix.
proof fn lemma_digits_prefix_bound(d: Seq<u8>, k: int)
    requires
        0 <= k <= d.len(),
    ensures
        all_digits(d) ==> digits_value(d.subrange(0, k)) <= digits_value(d),
    decreases d.len() - k,
{
    if k < d.len() {
        lemma_digits_prefix_bound(d, k + 1);
        assert(d.subrange(0, k + 1) =~= d.subrange(0, k).push(d[k]));
        lemma_digits_push(d.subrange(0, k), d[k]);
    } else {
        assert(d.subrange(0, k) =~= d);
    }
}

/// Parses a size such as `512`, `64K` or `2g`; `None` when the number does
/// not parse.
pub fn parse_human_size(s: &str) -> (r: Option<usize>)
    requires
        s.spec_bytes().len() > 0,
        human_size(s.spec_bytes()) matches Some(v) ==> v <= usize::MAX,
    ensures
        r matches Some(v) ==> human_size(s.spec_bytes()) == Some(v as nat),
        r is None ==> human_size(s.spec_bytes()) is None,
{
    let b = s.as_bytes();
    let last = b[b.len() - 1];
    let factor: usize = if last == 75 || last == 107 {
        1024
    } else if last == 77 || last == 109 {
        1024 * 1024
    } else if last == 71 || last == 103 {
        1024 * 1024 * 1024
    } else {
        1
    };
    let digits = if factor > 1 {
        vstd::slice::slice_subrange(b, 0, b.len() - 1)
    } else {
        b
    };
    assert(factor > 1 ==> digits@ =~= b@.drop_last());
    match parse_decimal(digits) {
        Some(v) => {
            assert(v * factor <= usize::MAX);
            Some(v * factor)
        },
        None => None,
    }
}

/// Whether the size that `s` names, if any, fits in a machine word, as
/// `parse_human_size` needs.
pub fn human_size_fits(s: &str) -> (r: bool)
    requires
        s.spec_bytes().len() > 0,
    ensures
        r == !(human_size(s.spec_bytes()) matches Some(v) && v > usize::MAX),
{
    let b = s.as_bytes();
    let last = b[b.len() - 1];
    let factor: usize = if last == 75 || last == 107 {
        1024
    } else if last == 77 || last == 109 {
        1024 * 1024
    } else if last == 71 || last == 103 {
        1024 * 1024 * 1024
    } else {
        1
    };
    let digits = if factor > 1 {
        vstd::slice::slice_subrange(b, 0, b.len() - 1)
    } else {
        b
    };
    assert(factor > 1 ==> digits@ =~= b@.drop_last());
    match parse_decimal(digits) {
        Some(v) => v.checked_mul(factor).is_some(),
        None => true,
    }
}

// ---------------------------------------------------------------------------
// Zero-run-length decoding

/// Length of the run of non-zero bytes at the start.
pub open spec fn nonzero_run(b: Seq<u8>) -> nat
    decreases b.len(),
{
    if b.len() == 0 || b[0] == 0 {
        0
    } else {
        1 + nonzero_run(b.drop_first())
    }
}

proof fn lemma_nonzero_run(b: Seq<u8>)
    ensures
        nonzero_run(b) <= b.len(),
        b.len() > 0 && b[0] != 0 ==> nonzero_run(b) >= 1,
        forall|i: int| 0 <= i < nonzero_run(b) ==> b[i] != 0,
        nonzero_run(b) < b.len() ==> b[nonzero_run(b) as int] == 0,
    decreases b.len(),
{
    if b.len() > 0 && b[0] != 0 {
        lemma_nonzero_run(b.drop_first());
        assert forall|i: int| 0 <= i < nonzero_run(b) implies b[i] != 0 by {
            if i > 0 {
                assert(b[i] == b.drop_first()[i - 1]);
            }
        }
        if nonzero_run(b) < b.len() {
            assert(b[nonzero_run(b) as int] == b.drop_first()[nonzero_run(b.drop_first()) as int]);
        }
    }
}

/// A zero-run-length encoded buffer: every zero byte is followed by a count.
pub open spec fn zrl_ok(b: Seq<u8>) -> bool
    decreases b.len(),
{
    if b.len() == 0 {
        true
    } else if b[0] == 0 {
        b.len() >= 2 && zrl_ok(b.subrange(2, b.len() as int))
    } else {
        let k = nonzero_run(b);
        if k >= 1 && k <= b.len() {
            zrl_ok(b.subrange(k as int, b.len() as int))
        } else {
            false
        }
    }
}

/// Decoding: a zero byte and a count `n` stand for `n` zero bytes; other
/// bytes stand for themselves.
pub open spec fn zrl_decode(b: Seq<u8>) -> Seq<u8>
    decreases b.len(),
{
    if b.len() == 0 {
        Seq::empty()
    } else if b[0] == 0 {
        if b.len() >= 2 {
            Seq::new(b[1] as nat, |i: int| 0u8) + zrl_decode(b.subrange(2, b.len() as int))
        } else {
            Seq::empty()
        }
    } else {
        let k = nonzero_run(b);
        if k >= 1 && k <= b.len() {
            b.subrange(0, k as int) + zrl_decode(b.subrange(k as int, b.len() as int))
        } else {
            Seq::empty()
        }
    }
}

/// Decodes a zero-run-length encoded buffer; `size_hint` only reserves room.
pub fn zrld(buf: &[u8], size_hint: Option<usize>) -> (r: Vec<u8>)
    requires
        zrl_ok(buf@),
    ensures
        r@ == zrl_decode(buf@),
{
    let mut out: Vec<u8> = match size_hint {
        Some(n) => Vec::with_capacity(n),
        None => Vec::new(),
    };
    let ghost b = buf@;
    let mut i: usize = 0;
    assert(b.subrange(0, b.len() as int) =~= b);
    assert(out@ =~= Seq::<u8>::empty());
    while i < buf.len()
        invariant
            0 <= i <= b.len(),
            b == buf@,
            zrl_ok(b.subrange(i as int, b.len() as int)),
            out@ + zrl_decode(b.subrange(i as int, b.len() as int)) == zrl_decode(b),
        decreases b.len() - i,
    {
        let ghost rest = b.subrange(i as int, b.len() as int);
        if buf[i] == 0 {
            let n = buf[i + 1];
            let mut k: u8 = 0;
            let ghost before = out@;
            while k < n
                invariant
                    k <= n,
                    out@ == before + Seq::new(k as nat, |j: int| 0u8),
                decreases n - k,
            {
                out.push(0);
                k += 1;
                assert(out@ =~= before + Seq::new(k as nat, |j: int| 0u8));
            }
            assert(rest.subrange(2, rest.len() as int) =~= b.subrange(i + 2, b.len() as int));
            assert(before + zrl_decode(rest) =~= out@ + zrl_decode(b.subrange(i + 2, b.len() as int)));
            i += 2;
        } else {
            proof {
                lemma_nonzero_run(rest);
            }
            let start = i;
            let ghost before = out@;
            while i < buf.len() && buf[i] != 0
                invariant
                    start <= i <= b.len(),
                    b == buf@,
                    rest == b.subrange(start as int, b.len() as int),
                    i - start <= nonzero_run(rest),
                    forall|j: int| 0 <= j < nonzero_run(rest) ==> rest[j] != 0,
                    nonzero_run(rest) < rest.len() ==> rest[nonzero_run(rest) as int] == 0,
                    out@ == before + b.subrange(start as int, i as int),
                decreases b.len() - i,
            {
                out.push(buf[i]);
                i += 1;
                assert(out@ =~= before + b.subrange(start as int, i as int));
            }
            assert(i - start == nonzero_run(rest)) by {
                if i - start < nonzero_run(rest) {
                    assert(rest[i - start] != 0);
                    assert(rest[i - start] == b[i as int]);
                }
            };
            assert(rest.subrange(0, (i - start) as int) =~= b.subrange(start as int, i as int));
            assert(rest.subrange((i - start) as int, rest.len() as int) =~= b.subrange(i as int, b.len() as int));
            assert(before + zrl_decode(rest) =~= out@ + zrl_decode(b.subrange(i as int, b.len() as int)));
        }
    }
    assert(out@ + zrl_decode(b.subrange(i as int, b.len() as int)) =~= out@);
    out
}

/// Zero bytes at the start, at most `cap` of them.
pub open spec fn zero_run(b: Seq<u8>, cap: nat) -> nat
    decreases b.len(),
{
    if b.len() == 0 || b[0] != 0 || cap == 0 {
        0
    } else {
        1 + zero_run(b.drop_first(), (cap - 1) as nat)
    }
}

proof fn lemma_zero_run(b: Seq<u8>, cap: nat)
    ensures
        zero_run(b, cap) <= b.len(),
        zero_run(b, cap) <= cap,
        b.len() > 0 && b[0] == 0 && cap > 0 ==> zero_run(b, cap) >= 1,
        forall|i: int| 0 <= i < zero_run(b, cap) ==> b[i] == 0,
        zero_run(b, cap) < cap && zero_run(b, cap) < b.len() ==> b[zero_run(b, cap) as int] != 0,
    decreases b.len(),
{
    if b.len() > 0 && b[0] == 0 && cap > 0 {
        lemma_zero_run(b.drop_first(), (cap - 1) as nat);
        assert forall|i: int| 0 <= i < zero_run(b, cap) implies b[i] == 0 by {
            if i > 0 {
                assert(b[i] == b.drop_first()[i - 1]);
            }
        }
        let z = zero_run(b, cap);
        if z < cap && z < b.len() {
            assert(b[z as int] == b.drop_first()[z - 1]);
        }
    }
}

/// Zero-run-length encoding of what is left of a buffer, `saved` bytes
/// having been saved so far: each run of up to 255 zero bytes becomes a zero
/// byte and the run's length, followed by the non-zero bytes after it. It
/// fails (`None`) at a single zero byte when nothing has been saved, where the
/// encoding would grow past the input.
pub open spec fn zrle_from(b: Seq<u8>, saved: int) -> Option<Seq<u8>>
    decreases b.len(),
{
    if b.len() == 0 {
        Some(Seq::empty())
    } else {
        let r = zero_run(b, 255);
        let rest = b.subrange(r as int, b.len() as int);
        let k = nonzero_run(rest);
        if r == 1 && saved == 0 {
            None
        } else if r + k >= 1 && r + k <= b.len() {
            match zrle_from(rest.subrange(k as int, rest.len() as int), saved + r - 2) {
                Some(o) => Some(seq![0u8, r as u8] + rest.subrange(0, k as int) + o),
                None => None,
            }
        } else {
            None
        }
    }
}

/// The encoding written before the encoding stops, at the end of the
/// buffer or at the single zero byte where it fails.
pub open spec fn zrle_done(b: Seq<u8>, saved: int) -> Seq<u8>
    decreases b.len(),
{
    if b.len() == 0 {
        Seq::empty()
    } else {
        let r = zero_run(b, 255);
        let rest = b.subrange(r as int, b.len() as int);
        let k = nonzero_run(rest);
        if r == 1 && saved == 0 {
            Seq::empty()
        } else if r + k >= 1 && r + k <= b.len() {
            seq![0u8, r as u8] + rest.subrange(0, k as int) + zrle_done(
                rest.subrange(k as int, rest.len() as int),
                saved + r - 2,
            )
        } else {
            Seq::empty()
        }
    }
}

proof fn lemma_zrle_done_step(rem: Seq<u8>, saved: int, run: nat, k: nat)
    requires
        rem.len() > 0,
        rem[0] == 0,
        run == zero_run(rem, 255),
        k == nonzero_run(rem.subrange(run as int, rem.len() as int)),
        !(run == 1 && saved == 0),
    ensures
        zrle_done(rem, saved) == seq![0u8, run as u8] + rem.subrange(run as int, (run + k) as int)
            + zrle_done(rem.subrange((run + k) as int, rem.len() as int), saved + run - 2),
{
    lemma_zero_run(rem, 255);
    let rest = rem.subrange(run as int, rem.len() as int);
    lemma_nonzero_run(rest);
    assert(rest.subrange(k as int, rest.len() as int) =~= rem.subrange((run + k) as int, rem.len() as int));
    assert(rest.subrange(0, k as int) =~= rem.subrange(run as int, (run + k) as int));
}

/// One step of the encoding: a run of zeros and the non-zero bytes after it.
proof fn lemma_zrle_step(rem: Seq<u8>, saved: int, run: nat, k: nat)
    requires
        rem.len() > 0,
        rem[0] == 0,
        run == zero_run(rem, 255),
        k == nonzero_run(rem.subrange(run as int, rem.len() as int)),
        !(run == 1 && saved == 0),
    ensures
        run >= 1,
        run + k <= rem.len(),
        zrle_from(rem, saved) == match zrle_from(rem.subrange((run + k) as int, rem.len() as int), saved + run - 2) {
            Some(o) => Some(seq![0u8, run as u8] + rem.subrange(run as int, (run + k) as int) + o),
            None => None::<Seq<u8>>,
        },
{
    lemma_zero_run(rem, 255);
    let rest = rem.subrange(run as int, rem.len() as int);
    lemma_nonzero_run(rest);
    assert(rest.subrange(k as int, rest.len() as int) =~= rem.subrange((run + k) as int, rem.len() as int));
    assert(rest.subrange(0, k as int) =~= rem.subrange(run as int, (run + k) as int));
}

/// The encoding so far, extended by one step.
proof fn lemma_zrle_extend(b: Seq<u8>, out0: Seq<u8>, rem: Seq<u8>, saved: int, next: Seq<u8>, saved2: int, piece: Seq<u8>)
    requires
        zrle_from(b, 0) == match zrle_from(rem, saved) {
            Some(o) => Some(out0 + o),
            None => None::<Seq<u8>>,
        },
        zrle_from(rem, saved) == match zrle_from(next, saved2) {
            Some(o) => Some(piece + o),
            None => None::<Seq<u8>>,
        },
    ensures
        zrle_from(b, 0) == match zrle_from(next, saved2) {
            Some(o) => Some((out0 + piece) + o),
            None => None::<Seq<u8>>,
        },
{
    match zrle_from(next, saved2) {
        Some(o) => {
            assert(out0 + (piece + o) =~= (out0 + piece) + o);
        },
        None => {},
    }
}

/// Non-zero bytes followed by nothing or by a zero byte: the run of
/// non-zero bytes is exactly the first part.
proof fn lemma_nonzero_run_concat(x: Seq<u8>, y: Seq<u8>)
    requires
        forall|i: int| 0 <= i < x.len() ==> x[i] != 0,
        y.len() == 0 || y[0] == 0,
    ensures
        nonzero_run(x + y) == x.len(),
    decreases x.len(),
{
    if x.len() == 0 {
        assert(x + y =~= y);
    } else {
        assert((x + y).drop_first() =~= x.drop_first() + y);
        lemma_nonzero_run_concat(x.drop_first(), y);
    }
}

proof fn lemma_zrle_roundtrip_from(b: Seq<u8>, saved: int)
    requires
        zrle_from(b, saved) is Some,
    ensures
        zrl_ok(zrle_from(b, saved)->0),
        zrl_decode(zrle_from(b, saved)->0) == b,
        zrle_from(b, saved)->0.len() == 0 || zrle_from(b, saved)->0[0] == 0,
    decreases b.len(),
{
    let o = zrle_from(b, saved)->0;
    if b.len() == 0 {
        assert(zrl_decode(o) =~= b);
    } else {
        let r = zero_run(b, 255);
        let rest = b.subrange(r as int, b.len() as int);
        let k = nonzero_run(rest);
        lemma_zero_run(b, 255);
        lemma_nonzero_run(rest);
        let next = rest.subrange(k as int, rest.len() as int);
        let saved2 = saved + r - 2;
        lemma_zrle_roundtrip_from(next, saved2);
        let o2 = zrle_from(next, saved2)->0;
        let piece = rest.subrange(0, k as int);
        assert(o == seq![0u8, r as u8] + piece + o2);
        let t = o.subrange(2, o.len() as int);
        assert(t =~= piece + o2);
        assert(o[0] == 0 && o[1] == r as u8);
        assert(forall|i: int| 0 <= i < piece.len() ==> piece[i] != 0);
        lemma_nonzero_run_concat(piece, o2);
        if k == 0 {
            assert(t =~= o2);
        } else {
            assert(t.subrange(0, k as int) =~= piece);
            assert(t.subrange(k as int, t.len() as int) =~= o2);
        }
        assert(zrl_ok(t));
        assert(zrl_decode(t) == piece + next) by {
            if k == 0 {
                assert(piece + next =~= next);
            }
        }
        assert(zrl_decode(o) == Seq::new(r, |i: int| 0u8) + zrl_decode(t));
        assert(b =~= Seq::new(r, |i: int| 0u8) + (piece + next));
    }
}

/// Decoding gives back what was encoded: whenever a buffer can be encoded,
/// the encoding is well formed and decodes to the buffer.
pub proof fn lemma_zrle_roundtrip(b: Seq<u8>)
    requires
        zrle_from(b, 0) is Some,
    ensures
        zrl_ok(zrle_from(b, 0)->0),
        zrl_decode(zrle_from(b, 0)->0) == b,
{
    lemma_zrle_roundtrip_from(b, 0);
}

/// Encodes a buffer in place with zero-run-length encoding; the encoding is
/// the start of the buffer, as long as the result says. `None` when the
/// encoding would not be shorter. The buffer must start with a zero byte
/// (or be empty): a leading non-zero byte underflows the count of saved
/// bytes.
#[verifier::rlimit(40)]
pub fn zrle(buf: &mut Vec<u8>) -> (r: Option<usize>)
    requires
        old(buf)@.len() == 0 || old(buf)@[0] == 0,
    ensures
        final(buf)@.len() == old(buf)@.len(),
        match zrle_from(old(buf)@, 0) {
            Some(o) => r == Some(o.len() as usize) && o.len() <= old(buf)@.len() && final(buf)@.subrange(
                0,
                o.len() as int,
            ) == o,
            None => r is None && zrle_done(old(buf)@, 0).len() <= old(buf)@.len() && final(buf)@
                == zrle_done(old(buf)@, 0) + old(buf)@.subrange(
                zrle_done(old(buf)@, 0).len() as int,
                old(buf)@.len() as int,
            ),
        },
{
    let ghost b = buf@;
    let n = buf.len();
    let mut saved: usize = 0;
    let mut i: usize = 0;
    assert(b.subrange(0, n as int) =~= b);
    while i < n
        invariant
            n == b.len(),
            b == old(buf)@,
            buf@.len() == n,
            saved <= i <= n,
            i == n || b[i as int] == 0,
            forall|j: int| i - saved <= j < n ==> buf@[j] == b[j],
            zrle_done(b, 0) == buf@.subrange(0, i - saved) + zrle_done(b.subrange(i as int, n as int), saved as int),
            zrle_from(b, 0) == match zrle_from(b.subrange(i as int, n as int), saved as int) {
                Some(o) => Some(buf@.subrange(0, i - saved) + o),
                None => None::<Seq<u8>>,
            },
        decreases n - i,
    {
        let ghost rem = b.subrange(i as int, n as int);
        let ghost out0 = buf@.subrange(0, i - saved);
        proof {
            lemma_zero_run(rem, 255);
        }
        let start = i;
        let mut run: u8 = 0;
        while i < n && buf[i] == 0 && run != 255
            invariant
                n == b.len(),
                buf@.len() == n,
                start <= i <= n,
                run as int == i - start,
                rem == b.subrange(start as int, n as int),
                forall|j: int| start <= j < n ==> buf@[j] == b[j],
                run <= zero_run(rem, 255),
                forall|j: int| 0 <= j < zero_run(rem, 255) ==> rem[j] == 0,
                zero_run(rem, 255) < 255 && zero_run(rem, 255) < rem.len() ==> rem[zero_run(rem, 255) as int] != 0,
            decreases n - i,
        {
            assert(rem[run as int] == b[i as int]);
            proof {
                if run == zero_run(rem, 255) {
                    assert(false);
                }
            }
            i += 1;
            run += 1;
        }
        assert(run == zero_run(rem, 255)) by {
            if run < zero_run(rem, 255) {
                assert(rem[run as int] == 0);
                assert(rem[run as int] == b[i as int]);
            }
        };
        if run == 1 && saved == 0 {
            assert(zrle_from(rem, 0) is None);
            assert(zrle_done(rem, 0) =~= Seq::<u8>::empty());
            assert(zrle_done(b, 0) =~= buf@.subrange(0, start as int));
            assert(buf@ =~= zrle_done(b, 0) + b.subrange(start as int, n as int));
            return None;
        }
        assert(run >= 1);
        saved = saved + run as usize - 2;
        buf.set(i - saved - 2, 0);
        buf.set(i - saved - 1, run);
        let ghost rest = rem.subrange(run as int, rem.len() as int);
        assert(rest =~= b.subrange(i as int, n as int));
        proof {
            lemma_nonzero_run(rest);
        }
        let ghost out1 = buf@.subrange(0, i - saved);
        assert(out1 =~= out0 + seq![0u8, run]);
        let mid = i;
        while i < n && buf[i] != 0
            invariant
                n == b.len(),
                buf@.len() == n,
                saved <= mid <= i <= n,
                rest == b.subrange(mid as int, n as int),
                forall|j: int| i - saved <= j < n ==> buf@[j] == b[j],
                i - mid <= nonzero_run(rest),
                forall|j: int| 0 <= j < nonzero_run(rest) ==> rest[j] != 0,
                nonzero_run(rest) < rest.len() ==> rest[nonzero_run(rest) as int] == 0,
                buf@.subrange(0, i - saved) == out1 + rest.subrange(0, i - mid),
            decreases n - i,
        {
            let ghost pre = buf@.subrange(0, i - saved);
            let c = buf[i];
            buf.set(i - saved, c);
            assert(buf@.subrange(0, i - saved) =~= pre);
            assert(rest[i - mid] == b[i as int]);
            i += 1;
            assert(buf@.subrange(0, i - saved) =~= pre.push(c));
            assert(out1 + rest.subrange(0, i - mid) =~= (out1 + rest.subrange(0, i - 1 - mid)).push(
                rest[i - 1 - mid],
            ));
        }
        assert(i - mid == nonzero_run(rest)) by {
            if i - mid < nonzero_run(rest) {
                assert(rest[i - mid] != 0);
                assert(rest[i - mid] == b[i as int]);
            }
        };
        proof {
            let k = nonzero_run(rest);
            lemma_zrle_step(rem, (saved + 2 - run) as int, run as nat, k);
            assert(rem.subrange((run + k) as int, rem.len() as int) =~= b.subrange(i as int, n as int));
            assert(rem.subrange(run as int, (run + k) as int) =~= rest.subrange(0, k as int));
            lemma_zrle_extend(
                b,
                out0,
                rem,
                (saved + 2 - run) as int,
                b.subrange(i as int, n as int),
                saved as int,
                seq![0u8, run] + rest.subrange(0, k as int),
            );
            assert(buf@.subrange(0, i - saved) =~= out0 + (seq![0u8, run] + rest.subrange(0, k as int)));
            lemma_zrle_done_step(rem, (saved + 2 - run) as int, run as nat, k);
            assert(zrle_done(b, 0) =~= buf@.subrange(0, i - saved) + zrle_done(b.subrange(i as int, n as int), saved as int));
        }
    }
    assert(b.subrange(n as int, n as int) =~= Seq::<u8>::empty());
    let len = n - saved;
    assert(buf@.subrange(0, len as int) + Seq::<u8>::empty() =~= buf@.subrange(0, len as int));
    Some(len)
}

// ---------------------------------------------------------------------------

/// Either side of a result whose two sides have one type.
pub trait ErrorOrOk<T> {
    fn err_or_ok(self) -> T;
}

impl<T> ErrorOrOk<T> for Result<T, T> {
    fn err_or_ok(self) -> (r: T)
        ensures
            r == match self {
                Ok(t) => t,
                Err(t) => t,
            },
    {
        match self {
            Ok(t) => t,
            Err(t) => t,
        }
    }
}

/// A value computed on first use by a closure that runs at most once.
#[verifier::reject_recursive_types(T)]
pub struct Lazy<T, F: FnOnce() -> T> {
    f: Option<F>,
    t: Option<T>,
}

impl<T, F: FnOnce() -> T> Lazy<T, F> {
    /// The closure, while it has not run.
    pub closed spec fn pending(&self) -> Option<F> {
        self.f
    }

    /// The value, once it has been computed.
    pub closed spec fn value(&self) -> Option<T> {
        self.t
    }

    /// Exactly one of the closure and the value is held.
    pub closed spec fn wf(&self) -> bool {
        self.f is Some != self.t is Some
    }

    /// What a use yields: the value where it was computed, else a result
    /// of the closure.
    pub open spec fn yields(&self, r: T) -> bool {
        match self.value() {
            Some(v) => r == v,
            None => call_ensures(self.pending()->0, (), r),
        }
    }

    /// Whether a use may run the closure.
    pub open spec fn can_force(&self) -> bool {
        self.value() is None ==> call_requires(self.pending()->0, ())
    }

    pub fn new(f: F) -> (l: Self)
        ensures
            l.wf(),
            l.pending() == Some(f),
            l.value() is None,
    {
        Lazy { f: Some(f), t: None }
    }

    /// The value, computed by the closure on the first use and kept.
    pub fn get_or_create(&mut self) -> (r: &mut T)
        requires
            old(self).wf(),
            old(self).can_force(),
        ensures
            old(self).yields(*r),
            final(self).wf(),
            final(self).value() == Some(*final(r)),
    {
        if self.t.is_none() {
            let f = self.f.take().unwrap();
            let v = f();
            return self.t.insert(v);
        }
        self.t.as_mut().unwrap()
    }

    /// The value, computed by the closure if it was not yet.
    pub fn take(self) -> (r: T)
        requires
            self.wf(),
            self.can_force(),
        ensures
            self.yields(r),
    {
        let Lazy { f, t } = self;
        match t {
            Some(v) => v,
            None => {
                let g = f.unwrap();
                g()
            },
        }
    }
}

} // verus!
