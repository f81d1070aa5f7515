//! Canonical byte encoding of datamaps.
//!
//! A serialized value is a tag byte followed by its payload: booleans carry
//! one byte, numbers eight little-endian bytes, byte strings and maps a
//! 32-bit little-endian length followed by that many bytes or entries.  An
//! entry is a 32-bit key length, the key bytes, then the value.  The root of
//! a valid datamap payload must decode as a map and fill the buffer exactly.
//!
//! [`validate`] accepts a byte buffer exactly when it is the serialization of
//! a well-formed map, and returns that map; [`serialize`] produces the bytes.
//! The round trip both ways is proved below.

use vstd::arithmetic::div_mod::{lemma_fundamental_div_mod, lemma_fundamental_div_mod_converse};
use vstd::prelude::*;

use crate::datamap::{
    entries_view, lemma_entries_view, val_view, wf_val, Datamap, Entry, ValView, Value,
};
use crate::InputError;

verus! {

pub const TAG_BOOL: u8 = 1;

pub const TAG_NUM: u8 = 2;

pub const TAG_TEXT: u8 = 3;

pub const TAG_MAP: u8 = 4;

/// 256 to the `n`.
pub open spec fn pow256(n: nat) -> int
    decreases n,
{
    if n == 0 {
        1
    } else {
        256 * pow256((n - 1) as nat)
    }
}

proof fn lemma_pow256_small()
    ensures
        pow256(0) == 1,
        pow256(1) == 0x100,
        pow256(2) == 0x1_0000,
        pow256(3) == 0x100_0000,
        pow256(4) == 0x1_0000_0000,
        pow256(5) == 0x100_0000_0000,
        pow256(6) == 0x1_0000_0000_0000,
        pow256(7) == 0x100_0000_0000_0000,
        pow256(8) == 0x1_0000_0000_0000_0000,
{
    assert(pow256(1) == 256 * pow256(0));
    assert(pow256(2) == 256 * pow256(1));
    assert(pow256(3) == 256 * pow256(2));
    assert(pow256(4) == 256 * pow256(3));
    assert(pow256(5) == 256 * pow256(4));
    assert(pow256(6) == 256 * pow256(5));
    assert(pow256(7) == 256 * pow256(6));
    assert(pow256(8) == 256 * pow256(7));
}

/// The integer a little-endian byte sequence denotes.
pub open spec fn from_le(b: Seq<u8>) -> int
    decreases b.len(),
{
    if b.len() == 0 {
        0
    } else {
        b[0] + 256 * from_le(b.drop_first())
    }
}

/// The `n` low-order bytes of `x`, little-endian.
pub open spec fn to_le(x: int, n: nat) -> Seq<u8>
    decreases n,
{
    if n == 0 {
        Seq::empty()
    } else {
        seq![(x % 256) as u8] + to_le(x / 256, (n - 1) as nat)
    }
}

pub proof fn lemma_to_le_len(x: int, n: nat)
    ensures
        to_le(x, n).len() == n,
    decreases n,
{
    if n > 0 {
        lemma_to_le_len(x / 256, (n - 1) as nat);
    }
}

pub proof fn lemma_from_le_bound(b: Seq<u8>)
    ensures
        0 <= from_le(b) < pow256(b.len()),
    decreases b.len(),
{
    if b.len() > 0 {
        lemma_from_le_bound(b.drop_first());
        let r = from_le(b.drop_first());
        let p = pow256((b.len() - 1) as nat);
        assert(b[0] + 256 * r < 256 * p) by (nonlinear_arith)
            requires
                0 <= r < p,
                0 <= b[0] < 256,
        ;
    }
}

pub proof fn lemma_le_round(x: int, n: nat)
    requires
        0 <= x < pow256(n),
    ensures
        from_le(to_le(x, n)) == x,
    decreases n,
{
    if n > 0 {
        lemma_fundamental_div_mod(x, 256);
        let q = x / 256;
        let p = pow256((n - 1) as nat);
        assert(q < p) by (nonlinear_arith)
            requires
                256 * q + x % 256 == x,
                x < 256 * p,
                0 <= x % 256,
        ;
        assert(q >= 0) by (nonlinear_arith)
            requires
                256 * q + x % 256 == x,
                x >= 0,
                x % 256 < 256,
        ;
        lemma_le_round(q, (n - 1) as nat);
        assert((seq![(x % 256) as u8] + to_le(q, (n - 1) as nat)).drop_first() =~= to_le(
            q,
            (n - 1) as nat,
        ));
    }
}

pub proof fn lemma_to_from(b: Seq<u8>)
    ensures
        to_le(from_le(b), b.len()) == b,
    decreases b.len(),
{
    if b.len() > 0 {
        let r = from_le(b.drop_first());
        lemma_from_le_bound(b.drop_first());
        let x = from_le(b);
        lemma_fundamental_div_mod_converse(x, 256, r, b[0] as int);
        lemma_to_from(b.drop_first());
        assert(to_le(x, b.len()) =~= b);
    }
}

/// Serialized form of a value.
pub open spec fn spec_ser_val(v: ValView) -> Seq<u8>
    decreases v,
{
    match v {
        ValView::Bool(b) => seq![TAG_BOOL, if b { 1u8 } else { 0u8 }],
        ValView::Num(n) => seq![TAG_NUM] + to_le((n as u64) as int, 8),
        ValView::Text(t) => seq![TAG_TEXT] + to_le(t.len() as int, 4) + t,
        ValView::MapV(es) => seq![TAG_MAP] + to_le(es.len() as int, 4) + spec_ser_entries(es),
    }
}

/// Serialized form of a run of entries.
pub open spec fn spec_ser_entries(es: Seq<(Seq<u8>, ValView)>) -> Seq<u8>
    decreases es,
{
    if es.len() == 0 {
        Seq::empty()
    } else {
        to_le(es[0].0.len() as int, 4) + es[0].0 + spec_ser_val(es[0].1) + spec_ser_entries(
            es.drop_first(),
        )
    }
}

/// Serialized form of a whole datamap.
pub open spec fn spec_serialize(m: Seq<(Seq<u8>, ValView)>) -> Seq<u8> {
    spec_ser_val(ValView::MapV(m))
}

pub proof fn lemma_ser_len(v: ValView)
    ensures
        spec_ser_val(v).len() >= 2,
{
    match v {
        ValView::Bool(_) => {},
        ValView::Num(n) => {
            lemma_to_le_len((n as u64) as int, 8);
        },
        ValView::Text(t) => {
            lemma_to_le_len(t.len() as int, 4);
        },
        ValView::MapV(es) => {
            lemma_to_le_len(es.len() as int, 4);
        },
    }
}

/// Parse one value at position `p`; `None` when the bytes are not a valid
/// encoding there.
pub open spec fn spec_parse_val(s: Seq<u8>, p: int) -> Option<(ValView, int)>
    decreases s.len() - p, 0nat,
{
    if p < 0 || p >= s.len() {
        None
    } else if s[p] == TAG_BOOL {
        if p + 2 <= s.len() && (s[p + 1] == 0 || s[p + 1] == 1) {
            Some((ValView::Bool(s[p + 1] == 1), p + 2))
        } else {
            None
        }
    } else if s[p] == TAG_NUM {
        if p + 9 <= s.len() {
            Some((ValView::Num((from_le(s.subrange(p + 1, p + 9)) as u64) as i64), p + 9))
        } else {
            None
        }
    } else if s[p] == TAG_TEXT {
        if p + 5 <= s.len() {
            let n = from_le(s.subrange(p + 1, p + 5));
            if p + 5 + n <= s.len() {
                Some((ValView::Text(s.subrange(p + 5, p + 5 + n)), p + 5 + n))
            } else {
                None
            }
        } else {
            None
        }
    } else if s[p] == TAG_MAP {
        if p + 5 <= s.len() {
            let cnt = from_le(s.subrange(p + 1, p + 5));
            match spec_parse_entries(s, p + 5, cnt) {
                Some((es, end)) => Some((ValView::MapV(es), end)),
                None => None,
            }
        } else {
            None
        }
    } else {
        None
    }
}

/// Parse `cnt` entries starting at `p`.
pub open spec fn spec_parse_entries(s: Seq<u8>, p: int, cnt: int) -> Option<
    (Seq<(Seq<u8>, ValView)>, int),
>
    decreases s.len() - p, 1nat, cnt,
{
    if cnt <= 0 {
        if 0 <= p <= s.len() {
            Some((Seq::empty(), p))
        } else {
            None
        }
    } else if p < 0 || p + 4 > s.len() {
        None
    } else {
        let klen = from_le(s.subrange(p, p + 4));
        if klen < 0 || p + 4 + klen > s.len() {
            None
        } else {
            let key = s.subrange(p + 4, p + 4 + klen);
            match spec_parse_val(s, p + 4 + klen) {
                Some((v, end)) => {
                    if p + 4 + klen < end <= s.len() {
                        match spec_parse_entries(s, end, cnt - 1) {
                            Some((es, e2)) => Some((seq![(key, v)] + es, e2)),
                            None => None,
                        }
                    } else {
                        None
                    }
                },
                None => None,
            }
        }
    }
}

/// Decode a whole buffer: the root must be a map and fill the buffer exactly.
pub open spec fn spec_validate(s: Seq<u8>) -> Option<Seq<(Seq<u8>, ValView)>> {
    match spec_parse_val(s, 0) {
        Some((v, end)) => {
            if end == s.len() {
                match v {
                    ValView::MapV(es) => Some(es),
                    _ => None,
                }
            } else {
                None
            }
        },
        None => None,
    }
}

/// A successful parse read exactly the serialization of a well-formed value.
pub proof fn lemma_parse_val_sound(s: Seq<u8>, p: int)
    ensures
        spec_parse_val(s, p) matches Some(r) ==> {
            &&& 0 <= p
            &&& r.1 <= s.len()
            &&& p + spec_ser_val(r.0).len() == r.1
            &&& wf_val(r.0)
            &&& s.subrange(p, r.1) == spec_ser_val(r.0)
        },
    decreases s.len() - p, 0nat,
{
    if spec_parse_val(s, p) is Some {
        let (v, end) = spec_parse_val(s, p)->Some_0;
        lemma_pow256_small();
        if s[p] == TAG_BOOL {
            assert(s.subrange(p, p + 2) =~= spec_ser_val(v));
        } else if s[p] == TAG_NUM {
            let b8 = s.subrange(p + 1, p + 9);
            lemma_from_le_bound(b8);
            let u = from_le(b8);
            let x = (u as u64) as i64;
            let uu: u64 = u as u64;
            assert((uu as i64) as u64 == uu) by (bit_vector);
            assert((x as u64) as int == u);
            lemma_to_from(b8);
            lemma_to_le_len(u, 8);
            assert(s.subrange(p, p + 9) =~= seq![TAG_NUM] + b8);
        } else if s[p] == TAG_TEXT {
            let b4 = s.subrange(p + 1, p + 5);
            lemma_from_le_bound(b4);
            let n = from_le(b4);
            let t = s.subrange(p + 5, p + 5 + n);
            lemma_to_from(b4);
            lemma_to_le_len(n, 4);
            assert(s.subrange(p, p + 5 + n) =~= seq![TAG_TEXT] + b4 + t);
        } else if s[p] == TAG_MAP {
            let b4 = s.subrange(p + 1, p + 5);
            lemma_from_le_bound(b4);
            let cnt = from_le(b4);
            lemma_parse_entries_sound(s, p + 5, cnt);
            let (es, e2) = spec_parse_entries(s, p + 5, cnt)->Some_0;
            lemma_to_from(b4);
            lemma_to_le_len(cnt, 4);
            assert(s.subrange(p, e2) =~= seq![TAG_MAP] + b4 + s.subrange(p + 5, e2));
        }
    }
}

/// A successful entry-run parse read exactly the serialization of `cnt`
/// well-formed entries.
pub proof fn lemma_parse_entries_sound(s: Seq<u8>, p: int, cnt: int)
    ensures
        spec_parse_entries(s, p, cnt) matches Some(r) ==> {
            &&& 0 <= p
            &&& r.1 <= s.len()
            &&& p + spec_ser_entries(r.0).len() == r.1
            &&& cnt >= 0 ==> r.0.len() == cnt
            &&& forall|i: int|
                0 <= i < r.0.len() ==> (#[trigger] r.0[i]).0.len() < 0x1_0000_0000 && wf_val(
                    r.0[i].1,
                )
            &&& s.subrange(p, r.1) == spec_ser_entries(r.0)
        },
    decreases s.len() - p, 1nat, cnt,
{
    if spec_parse_entries(s, p, cnt) is Some {
        let (es, e2) = spec_parse_entries(s, p, cnt)->Some_0;
        if cnt <= 0 {
            assert(s.subrange(p, p) =~= spec_ser_entries(es));
        } else {
            lemma_pow256_small();
            let b4 = s.subrange(p, p + 4);
            lemma_from_le_bound(b4);
            let klen = from_le(b4);
            let key = s.subrange(p + 4, p + 4 + klen);
            lemma_parse_val_sound(s, p + 4 + klen);
            let (v, end) = spec_parse_val(s, p + 4 + klen)->Some_0;
            lemma_parse_entries_sound(s, end, cnt - 1);
            let (rest, _) = spec_parse_entries(s, end, cnt - 1)->Some_0;
            lemma_to_from(b4);
            lemma_to_le_len(klen, 4);
            assert(es =~= seq![(key, v)] + rest);
            assert(es[0] == (key, v));
            assert forall|i: int| 0 <= i < es.len() implies (#[trigger] es[i]).0.len()
                < 0x1_0000_0000 && wf_val(es[i].1) by {
                if i > 0 {
                    assert(es[i] == rest[i - 1]);
                }
            }
            assert(s.subrange(p, e2) =~= b4 + key + s.subrange(p + 4 + klen, end) + s.subrange(
                end,
                e2,
            ));
            assert(spec_ser_entries(es) == to_le(klen, 4) + key + spec_ser_val(v)
                + spec_ser_entries(rest)) by {
                assert(es.drop_first() =~= rest);
                assert(es[0].0.len() == klen);
            }
        }
    }
}

/// Parsing the serialization of a well-formed value at `p` yields it back.
pub proof fn lemma_parse_val_complete(v: ValView, s: Seq<u8>, p: int)
    requires
        wf_val(v),
        0 <= p,
        p + spec_ser_val(v).len() <= s.len(),
        s.subrange(p, p + spec_ser_val(v).len() as int) == spec_ser_val(v),
    ensures
        spec_parse_val(s, p) == Some((v, p + spec_ser_val(v).len() as int)),
    decreases v,
{
    lemma_pow256_small();
    let w = spec_ser_val(v);
    let end = p + w.len() as int;
    assert(s[p] == w[0]) by {
        assert(s.subrange(p, end)[0] == s[p]);
    }
    match v {
        ValView::Bool(b) => {
            assert(s[p + 1] == w[1]) by {
                assert(s.subrange(p, end)[1] == s[p + 1]);
            }
            assert(s[p] == TAG_BOOL);
        },
        ValView::Num(n) => {
            let b8 = to_le((n as u64) as int, 8);
            lemma_to_le_len((n as u64) as int, 8);
            assert(s.subrange(p + 1, p + 9) =~= s.subrange(p, end).subrange(1, 9));
            assert(w.subrange(1, 9) =~= b8);
            assert(0 <= ((n as u64) as int) < pow256(8));
            lemma_le_round((n as u64) as int, 8);
            assert(((n as u64) as u64) as i64 == n) by (bit_vector);
        },
        ValView::Text(t) => {
            let b4 = to_le(t.len() as int, 4);
            lemma_to_le_len(t.len() as int, 4);
            assert(s.subrange(p + 1, p + 5) =~= s.subrange(p, end).subrange(1, 5));
            assert(w.subrange(1, 5) =~= b4);
            lemma_le_round(t.len() as int, 4);
            assert(s.subrange(p + 5, p + 5 + t.len() as int) =~= s.subrange(p, end).subrange(
                5,
                5 + t.len() as int,
            ));
            assert(w.subrange(5, 5 + t.len() as int) =~= t);
        },
        ValView::MapV(es) => {
            let b4 = to_le(es.len() as int, 4);
            lemma_to_le_len(es.len() as int, 4);
            let we = spec_ser_entries(es);
            assert(s.subrange(p + 1, p + 5) =~= s.subrange(p, end).subrange(1, 5));
            assert(w.subrange(1, 5) =~= b4);
            lemma_le_round(es.len() as int, 4);
            assert(s.subrange(p + 5, p + 5 + we.len() as int) =~= s.subrange(p, end).subrange(
                5,
                5 + we.len() as int,
            ));
            assert(w.subrange(5, 5 + we.len() as int) =~= we);
            lemma_parse_entries_complete(es, s, p + 5);
        },
    }
}

/// Parsing the serialization of well-formed entries at `p` yields them back.
pub proof fn lemma_parse_entries_complete(es: Seq<(Seq<u8>, ValView)>, s: Seq<u8>, p: int)
    requires
        forall|i: int|
            0 <= i < es.len() ==> (#[trigger] es[i]).0.len() < 0x1_0000_0000 && wf_val(es[i].1),
        0 <= p,
        p + spec_ser_entries(es).len() <= s.len(),
        s.subrange(p, p + spec_ser_entries(es).len() as int) == spec_ser_entries(es),
    ensures
        spec_parse_entries(s, p, es.len() as int) == Some(
            (es, p + spec_ser_entries(es).len() as int),
        ),
    decreases es,
{
    lemma_pow256_small();
    let w = spec_ser_entries(es);
    let end = p + w.len() as int;
    if es.len() == 0 {
        assert(spec_parse_entries(s, p, 0) == Some((Seq::<(Seq<u8>, ValView)>::empty(), p)));
        assert(es =~= Seq::<(Seq<u8>, ValView)>::empty());
    } else {
        let key = es[0].0;
        let v = es[0].1;
        let b4 = to_le(key.len() as int, 4);
        lemma_to_le_len(key.len() as int, 4);
        let wv = spec_ser_val(v);
        let rest = es.drop_first();
        let wrest = spec_ser_entries(rest);
        assert(w == b4 + key + wv + wrest);
        let q = p + 4 + key.len() as int;
        let e1 = q + wv.len() as int;
        assert(s.subrange(p, p + 4) =~= s.subrange(p, end).subrange(0, 4));
        assert(w.subrange(0, 4) =~= b4);
        lemma_le_round(key.len() as int, 4);
        assert(s.subrange(p + 4, q) =~= s.subrange(p, end).subrange(4, 4 + key.len() as int));
        assert(w.subrange(4, 4 + key.len() as int) =~= key);
        assert(s.subrange(q, e1) =~= s.subrange(p, end).subrange(
            4 + key.len() as int,
            4 + key.len() + wv.len() as int,
        ));
        assert(w.subrange(4 + key.len() as int, 4 + key.len() + wv.len() as int) =~= wv);
        lemma_parse_val_complete(v, s, q);
        lemma_ser_len(v);
        assert(s.subrange(e1, e1 + wrest.len() as int) =~= s.subrange(p, end).subrange(
            4 + key.len() + wv.len() as int,
            w.len() as int,
        ));
        assert(w.subrange(4 + (key.len() + wv.len()) as int, w.len() as int) =~= wrest);
        lemma_parse_entries_complete(rest, s, e1);
        assert(seq![(key, v)] + rest =~= es);
    }
}

/// Read an `n`-byte little-endian integer, `n <= 8`.
fn read_le(b: &Vec<u8>, p: usize, n: usize) -> (r: u64)
    requires
        p + n <= b@.len(),
        n <= 8,
    ensures
        r == from_le(b@.subrange(p as int, p as int + n as int)),
        r < pow256(n as nat),
{
    proof {
        lemma_pow256_small();
    }
    let blen = b.len();
    let mut r: u64 = 0;
    let mut i: usize = n;
    while i > 0
        invariant
            blen == b@.len(),
            p + n <= b@.len(),
            n <= 8,
            0 <= i <= n,
            r == from_le(b@.subrange(p + i, p as int + n as int)),
            r < pow256((n - i) as nat),
            pow256(8) == 0x1_0000_0000_0000_0000,
        decreases i,
    {
        proof {
            lemma_pow256_small();
            assert(pow256(((n - i) + 1) as nat) == 256 * pow256((n - i) as nat));
            assert(pow256((n - i) as nat) <= pow256(7)) by {
                lemma_pow256_mono((n - i) as nat, 7);
            }
        }
        i = i - 1;
        assert(p + i < blen);
        let byte = b[p + i];
        proof {
            let t = b@.subrange(p + i, p as int + n as int);
            assert(t.drop_first() =~= b@.subrange(p + i + 1, p as int + n as int));
            assert(from_le(t) == byte + 256 * r);
        }
        r = r * 256 + byte as u64;
    }
    proof {
        assert(b@.subrange(p as int, p as int + n as int) == b@.subrange(
            p + 0,
            p as int + n as int,
        ));
    }
    r
}

proof fn lemma_pow256_mono(a: nat, b: nat)
    requires
        a <= b,
    ensures
        pow256(a) <= pow256(b),
        pow256(a) >= 1,
    decreases b,
{
    if a == 0 {
        if b > 0 {
            lemma_pow256_mono(0, (b - 1) as nat);
        }
    } else {
        lemma_pow256_mono((a - 1) as nat, (b - 1) as nat);
    }
}

/// Append the `n` low-order bytes of `x`, little-endian.
fn write_le(out: &mut Vec<u8>, x: u64, n: usize)
    ensures
        final(out)@ == old(out)@ + to_le(x as int, n as nat),
{
    let mut cur: u64 = x;
    let mut i: usize = 0;
    while i < n
        invariant
            0 <= i <= n,
            to_le(x as int, n as nat) == out@.skip(old(out)@.len() as int) + to_le(
                cur as int,
                (n - i) as nat,
            ),
            out@.len() == old(out)@.len() + i,
            out@.subrange(0, old(out)@.len() as int) == old(out)@,
        decreases n - i,
    {
        let ghost pre = out@;
        out.push((cur % 256) as u8);
        proof {
            assert(to_le(cur as int, (n - i) as nat) == seq![(cur as int % 256) as u8] + to_le(
                cur as int / 256,
                (n - i - 1) as nat,
            ));
            assert(out@.skip(old(out)@.len() as int) =~= pre.skip(old(out)@.len() as int) + seq![
                (cur % 256) as u8,
            ]);
            assert((cur as int) % 256 == (cur % 256) as int);
            assert((cur as int) / 256 == (cur / 256) as int);
            assert(out@.skip(old(out)@.len() as int) + to_le((cur / 256) as int, (n - i - 1) as nat)
                =~= (pre.skip(old(out)@.len() as int) + seq![(cur % 256) as u8]) + to_le(
                (cur / 256) as int,
                (n - i - 1) as nat,
            ));
            assert(out@.subrange(0, old(out)@.len() as int) =~= old(out)@);
        }
        cur = cur / 256;
        i = i + 1;
    }
    proof {
        assert(to_le(cur as int, 0nat) =~= Seq::<u8>::empty());
        assert(to_le(x as int, n as nat) =~= out@.skip(old(out)@.len() as int));
        assert(out@ =~= old(out)@ + out@.skip(old(out)@.len() as int));
    }
}


proof fn lemma_ser_entries_push(es: Seq<(Seq<u8>, ValView)>, e: (Seq<u8>, ValView))
    ensures
        spec_ser_entries(es.push(e)) == spec_ser_entries(es) + (to_le(e.0.len() as int, 4) + e.0
            + spec_ser_val(e.1)),
    decreases es,
{
    reveal_with_fuel(spec_ser_entries, 3);
    if es.len() == 0 {
        assert(es.push(e)[0] == e);
        assert(es.push(e).drop_first() =~= Seq::<(Seq<u8>, ValView)>::empty());
        assert(spec_ser_entries(es.push(e)) =~= spec_ser_entries(es) + (to_le(e.0.len() as int, 4)
            + e.0 + spec_ser_val(e.1)));
    } else {
        assert(es.push(e)[0] == es[0]);
        assert(es.push(e).drop_first() =~= es.drop_first().push(e));
        lemma_ser_entries_push(es.drop_first(), e);
        assert(spec_ser_entries(es.push(e)) =~= spec_ser_entries(es) + (to_le(e.0.len() as int, 4)
            + e.0 + spec_ser_val(e.1)));
    }
}

/// Append all of `b` to `out`.
fn push_bytes(out: &mut Vec<u8>, b: &Vec<u8>)
    ensures
        final(out)@ == old(out)@ + b@,
{
    let n = b.len();
    let mut i: usize = 0;
    while i < n
        invariant
            n == b@.len(),
            0 <= i <= n,
            out@ == old(out)@ + b@.subrange(0, i as int),
        decreases n - i,
    {
        out.push(b[i]);
        proof {
            assert(old(out)@ + b@.subrange(0, i + 1) =~= (old(out)@ + b@.subrange(0, i as int)).push(
                b@[i as int],
            ));
        }
        i = i + 1;
    }
    proof {
        assert(b@.subrange(0, n as int) =~= b@);
    }
}

/// Copy `b[from..to]` into a fresh vector.
fn copy_range(b: &Vec<u8>, from: usize, to: usize) -> (r: Vec<u8>)
    requires
        from <= to <= b@.len(),
    ensures
        r@ == b@.subrange(from as int, to as int),
{
    let mut r: Vec<u8> = Vec::new();
    let mut i: usize = from;
    while i < to
        invariant
            from <= i <= to <= b@.len(),
            r@ == b@.subrange(from as int, i as int),
        decreases to - i,
    {
        r.push(b[i]);
        proof {
            assert(b@.subrange(from as int, i + 1) =~= b@.subrange(from as int, i as int).push(
                b@[i as int],
            ));
        }
        i = i + 1;
    }
    r
}

/// Append the serialization of one value.
fn ser_val_into(v: &Value, out: &mut Vec<u8>)
    requires
        wf_val(val_view(*v)),
    ensures
        final(out)@ == old(out)@ + spec_ser_val(val_view(*v)),
    decreases v,
{
    match v {
        Value::Bool(b) => {
            out.push(TAG_BOOL);
            out.push(if *b {
                1
            } else {
                0
            });
            proof {
                assert(out@ =~= old(out)@ + spec_ser_val(val_view(*v)));
            }
        },
        Value::Num(n) => {
            out.push(TAG_NUM);
            write_le(out, *n as u64, 8);
            proof {
                assert(out@ =~= old(out)@ + spec_ser_val(val_view(*v)));
            }
        },
        Value::Text(t) => {
            out.push(TAG_TEXT);
            write_le(out, t.len() as u64, 4);
            push_bytes(out, t);
            proof {
                assert(out@ =~= old(out)@ + spec_ser_val(val_view(*v)));
            }
        },
        Value::MapVal(m) => {
            ser_map_into(m, out);
        },
    }
}

/// Append the serialization of a whole map.
fn ser_map_into(m: &Datamap, out: &mut Vec<u8>)
    requires
        wf_val(ValView::MapV(entries_view(m.entries@))),
    ensures
        final(out)@ == old(out)@ + spec_ser_val(ValView::MapV(entries_view(m.entries@))),
    decreases m,
{
    proof {
        lemma_entries_view(m.entries@);
    }
    let ghost ev = entries_view(m.entries@);
    out.push(TAG_MAP);
    write_le(out, m.entries.len() as u64, 4);
    let ghost base = out@;
    let n = m.entries.len();
    let mut i: usize = 0;
    while i < n
        invariant
            n == m.entries@.len(),
            0 <= i <= n,
            ev == entries_view(m.entries@),
            ev.len() == n,
            forall|j: int|
                0 <= j < n ==> ev[j] == (m.entries@[j].key@, val_view(m.entries@[j].value)),
            wf_val(ValView::MapV(ev)),
            out@ == base + spec_ser_entries(ev.take(i as int)),
        decreases n - i,
    {
        let e = &m.entries[i];
        let ghost pre = out@;
        write_le(out, e.key.len() as u64, 4);
        push_bytes(out, &e.key);
        assert(wf_val(val_view(e.value))) by {
            assert(ev[i as int].1 == val_view(m.entries@[i as int].value));
        }
        ser_val_into(&e.value, out);
        proof {
            lemma_ser_entries_push(ev.take(i as int), ev[i as int]);
            assert(ev.take(i + 1) =~= ev.take(i as int).push(ev[i as int]));
            assert(out@ =~= base + spec_ser_entries(ev.take(i + 1)));
        }
        i = i + 1;
    }
    proof {
        assert(ev.take(n as int) =~= ev);
        assert(out@ =~= old(out)@ + spec_ser_val(ValView::MapV(ev)));
    }
}

/// Serialize a well-formed datamap into its canonical bytes.
pub fn serialize(m: &Datamap) -> (r: Vec<u8>)
    requires
        m.wf(),
    ensures
        r@ == spec_serialize(m@),
{
    let mut out: Vec<u8> = Vec::new();
    ser_map_into(m, &mut out);
    proof {
        assert(out@ =~= spec_serialize(m@));
    }
    out
}

/// Parse one value at `p`; mirrors [`spec_parse_val`] exactly.
fn parse_val(s: &Vec<u8>, p: usize) -> (r: Option<(Value, usize)>)
    ensures
        match r {
            Some(t) => spec_parse_val(s@, p as int) == Some((val_view(t.0), t.1 as int)),
            None => spec_parse_val(s@, p as int) is None,
        },
    decreases s@.len() - p,
{
    let len = s.len();
    if p >= len {
        return None;
    }
    let tag = s[p];
    if tag == TAG_BOOL {
        if len - p >= 2 {
            let b = s[p + 1];
            if b == 0 || b == 1 {
                Some((Value::Bool(b == 1), p + 2))
            } else {
                None
            }
        } else {
            None
        }
    } else if tag == TAG_NUM {
        if len - p >= 9 {
            let u = read_le(s, p + 1, 8);
            proof {
                assert((from_le(s@.subrange(p + 1, p + 9)) as u64) == u);
            }
            Some((Value::Num(u as i64), p + 9))
        } else {
            None
        }
    } else if tag == TAG_TEXT {
        if len - p >= 5 {
            let tl = read_le(s, p + 1, 4);
            if tl <= (len - p - 5) as u64 {
                let end = p + 5 + tl as usize;
                let t = copy_range(s, p + 5, end);
                Some((Value::Text(t), end))
            } else {
                None
            }
        } else {
            None
        }
    } else if tag == TAG_MAP {
        if len - p >= 5 {
            let cnt = read_le(s, p + 1, 4);
            let ghost cnt_i = cnt as int;
            proof {
                assert(cnt_i == from_le(s@.subrange(p + 1, p + 5)));
            }
            let mut acc: Vec<Entry> = Vec::new();
            let mut q: usize = p + 5;
            let mut j: u64 = 0;
            while j < cnt
                invariant
                    len == s@.len(),
                    p < len,
                    len - p >= 5,
                    s@[p as int] == TAG_MAP,
                    cnt_i == from_le(s@.subrange(p + 1, p + 5)),
                    p + 5 <= q <= len,
                    0 <= j <= cnt,
                    cnt_i == cnt as int,
                    acc@.len() == j,
                    match spec_parse_entries(s@, q as int, cnt_i - j as int) {
                        Some(t) => spec_parse_entries(s@, p + 5, cnt_i) == Some(
                            (entries_view(acc@) + t.0, t.1),
                        ),
                        None => spec_parse_entries(s@, p + 5, cnt_i) is None,
                    },
                decreases cnt - j,
            {
                if len - q < 4 {
                    proof {
                        assert(spec_parse_entries(s@, q as int, cnt_i - j as int) is None);
                        assert(spec_parse_entries(s@, p + 5, cnt_i) is None);
                    }
                    return None;
                }
                let klen = read_le(s, q, 4);
                if klen > (len - q - 4) as u64 {
                    proof {
                        assert(klen as int == from_le(s@.subrange(q as int, q + 4)));
                        assert(q + 4 + klen as int > len);
                        assert(spec_parse_entries(s@, q as int, cnt_i - j as int) is None);
                        assert(spec_parse_entries(s@, p + 5, cnt_i) is None);
                    }
                    return None;
                }
                let kend = q + 4 + klen as usize;
                let key = copy_range(s, q + 4, kend);
                match parse_val(s, kend) {
                    None => {
                        proof {
                            assert(spec_parse_entries(s@, q as int, cnt_i - j as int) is None);
                            assert(spec_parse_entries(s@, p + 5, cnt_i) is None);
                        }
                        return None;
                    },
                    Some((v, end)) => {
                        proof {
                            lemma_parse_val_sound(s@, kend as int);
                            lemma_ser_len(val_view(v));
                        }
                        let ghost old_acc = acc@;
                        let ghost kv = (key@, val_view(v));
                        acc.push(Entry { key, value: v });
                        proof {
                            lemma_entries_view(acc@);
                            lemma_entries_view(old_acc);
                            assert(entries_view(acc@) =~= entries_view(old_acc) + seq![kv]);
                            let m = cnt_i - j as int;
                            assert(kv.0 == s@.subrange(q + 4, q + 4 + klen as int));
                            if spec_parse_entries(s@, end as int, m - 1) is Some {
                                let t2 = spec_parse_entries(s@, end as int, m - 1)->Some_0;
                                assert(spec_parse_entries(s@, q as int, m) == Some(
                                    (seq![kv] + t2.0, t2.1),
                                ));
                                assert(entries_view(old_acc) + (seq![kv] + t2.0)
                                    =~= entries_view(acc@) + t2.0);
                            } else {
                                assert(spec_parse_entries(s@, q as int, m) is None);
                            }
                        }
                        q = end;
                        j = j + 1;
                    },
                }
            }
            proof {
                assert(spec_parse_entries(s@, q as int, 0) == Some(
                    (Seq::<(Seq<u8>, ValView)>::empty(), q as int),
                ));
                assert(entries_view(acc@) + Seq::<(Seq<u8>, ValView)>::empty() =~= entries_view(
                    acc@,
                ));
            }
            Some((Value::MapVal(Datamap { entries: acc }), q))
        } else {
            None
        }
    } else {
        None
    }
}

/// Decode a byte buffer as a datamap.
///
/// Succeeds exactly when the buffer is the canonical serialization of a
/// well-formed map; anything else is rejected as `MapInvalid`.
pub fn validate(bytes: &Vec<u8>) -> (r: Result<Datamap, InputError>)
    ensures
        match r {
            Ok(m) => spec_validate(bytes@) == Some(m@) && m.wf(),
            Err(e) => spec_validate(bytes@) is None && e == InputError::MapInvalid,
        },
{
    match parse_val(bytes, 0) {
        Some((v, end)) => {
            if end == bytes.len() {
                match v {
                    Value::MapVal(m) => {
                        proof {
                            lemma_parse_val_sound(bytes@, 0);
                        }
                        Ok(m)
                    },
                    _ => Err(InputError::MapInvalid),
                }
            } else {
                Err(InputError::MapInvalid)
            }
        },
        None => Err(InputError::MapInvalid),
    }
}

/// Datamap round-trip, forward direction: validating the serialization of
/// any well-formed map yields that map back.
pub proof fn lemma_validate_serialize(m: Seq<(Seq<u8>, ValView)>)
    requires
        wf_val(ValView::MapV(m)),
    ensures
        spec_validate(spec_serialize(m)) == Some(m),
{
    let s = spec_serialize(m);
    assert(s.subrange(0, s.len() as int) =~= s);
    lemma_parse_val_complete(ValView::MapV(m), s, 0);
}

/// Datamap round-trip, reverse direction: any buffer that is not the
/// serialization of some well-formed map is rejected.
pub proof fn lemma_garbage_rejected(b: Seq<u8>)
    requires
        forall|m: Seq<(Seq<u8>, ValView)>|
            wf_val(ValView::MapV(m)) ==> b != #[trigger] spec_serialize(m),
    ensures
        spec_validate(b) is None,
{
    if spec_validate(b) is Some {
        lemma_parse_val_sound(b, 0);
        let (v, end) = spec_parse_val(b, 0)->Some_0;
        assert(b.subrange(0, end) =~= b);
        match v {
            ValView::MapV(es) => {
                assert(b == spec_serialize(es));
            },
            _ => {},
        }
    }
}

} // verus!
