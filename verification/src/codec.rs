//! Order-preserving binary tuple codec.
//!
//! A tuple (a sequence of `Value`s) is encoded as the concatenation of its
//! values' encodings. Each value starts with a tag byte that equals the
//! variant's rank in the value order, so values of different variants compare
//! by tag. Booleans take one payload byte; integers take eight bytes,
//! big-endian after adding an offset so that negative values sort first;
//! text and blobs are escaped (a zero byte becomes `0x00 0xFF`) and closed
//! with a zero terminator; lists hold their elements' encodings and a zero
//! terminator. Under this scheme two tuples compare in value order exactly
//! as their encodings compare bytewise (`lemma_tuple_order_preserved`), and
//! decoding recovers the tuple exactly (`lemma_tuple_round_trip`).
use vstd::prelude::*;

use crate::value::{ValM, Value};

verus! {

broadcast use vstd::std_specs::vec::axiom_vec_index_decreases;

pub const TAG_BOOL: u8 = 1;

pub const TAG_INT: u8 = 2;

pub const TAG_TEXT: u8 = 3;

pub const TAG_BLOB: u8 = 4;

pub const TAG_LIST: u8 = 5;

/// The offset added to a 64-bit integer so that the result is nonnegative
/// and the natural order is kept.
pub const INT_OFFSET: u64 = 0x8000_0000_0000_0000;

// ---------------------------------------------------------------------------
// Byte-sequence order
// ---------------------------------------------------------------------------

/// Strict lexicographic order on byte sequences; a proper prefix sorts first.
/// This is the order of keys in the storage engine.
pub open spec fn bytes_lt(a: Seq<u8>, b: Seq<u8>) -> bool
    decreases a.len(),
{
    if b.len() == 0 {
        false
    } else if a.len() == 0 {
        true
    } else if a[0] != b[0] {
        a[0] < b[0]
    } else {
        bytes_lt(a.skip(1), b.skip(1))
    }
}

/// Byte order is a strict total order: exactly one of `a < b`, `b < a`,
/// `a == b` holds.
pub proof fn lemma_bytes_lt_total(a: Seq<u8>, b: Seq<u8>)
    ensures
        bytes_lt(a, b) || bytes_lt(b, a) || a == b,
        bytes_lt(a, b) ==> !bytes_lt(b, a) && a != b,
    decreases a.len(),
{
    if a.len() == 0 && b.len() == 0 {
        assert(a =~= b);
    } else if a.len() > 0 && b.len() > 0 && a[0] == b[0] {
        lemma_bytes_lt_total(a.skip(1), b.skip(1));
        if a.skip(1) == b.skip(1) {
            assert(a =~= b) by {
                assert forall|i: int| 0 <= i < a.len() implies a[i] == b[i] by {
                    if i > 0 {
                        assert(a[i] == a.skip(1)[i - 1]);
                        assert(b[i] == b.skip(1)[i - 1]);
                    }
                }
            }
        }
    }
}

/// Prepending a common prefix does not change the order of the remainders.
pub proof fn lemma_bytes_lt_common(c: Seq<u8>, a: Seq<u8>, b: Seq<u8>)
    ensures
        bytes_lt(c + a, c + b) == bytes_lt(a, b),
    decreases c.len(),
{
    if c.len() == 0 {
        assert(c + a =~= a);
        assert(c + b =~= b);
    } else {
        assert((c + a).len() > 0 && (c + b).len() > 0);
        assert((c + a)[0] == c[0] && (c + b)[0] == c[0]);
        assert((c + a).skip(1) =~= c.skip(1) + a);
        assert((c + b).skip(1) =~= c.skip(1) + b);
        lemma_bytes_lt_common(c.skip(1), a, b);
    }
}

/// Sequences that differ at their first byte order by that byte, whatever
/// follows.
proof fn lemma_bytes_lt_head(a: Seq<u8>, b: Seq<u8>)
    requires
        a.len() > 0,
        b.len() > 0,
        a[0] < b[0],
    ensures
        bytes_lt(a, b),
{
}

/// A proper prefix sorts before its extensions.
pub proof fn lemma_bytes_lt_prefix(a: Seq<u8>, b: Seq<u8>)
    requires
        a.len() < b.len(),
        a == b.subrange(0, a.len() as int),
    ensures
        bytes_lt(a, b),
    decreases a.len(),
{
    if a.len() > 0 {
        assert(a[0] == b[0]);
        assert(a.skip(1) =~= b.skip(1).subrange(0, a.len() - 1));
        lemma_bytes_lt_prefix(a.skip(1), b.skip(1));
    }
}

/// Equal-length sequences in order stay in order under any extensions: the
/// mismatch lies inside both.
proof fn lemma_bytes_lt_append_strict(s: Seq<u8>, t: Seq<u8>, a: Seq<u8>, b: Seq<u8>)
    requires
        s.len() == t.len(),
        bytes_lt(s, t),
    ensures
        bytes_lt(s + a, t + b),
    decreases s.len(),
{
    assert(s.len() > 0);
    if s[0] == t[0] {
        lemma_bytes_lt_append_strict(s.skip(1), t.skip(1), a, b);
        assert((s + a).skip(1) =~= s.skip(1) + a);
        assert((t + b).skip(1) =~= t.skip(1) + b);
    } else {
        lemma_bytes_lt_head(s + a, t + b);
    }
}

// ---------------------------------------------------------------------------
// Escaping of variable-length payloads
// ---------------------------------------------------------------------------

/// The escape code of one payload byte: a zero byte becomes `0x00 0xFF`,
/// every other byte stands for itself.
pub open spec fn esc_byte(b: u8) -> Seq<u8> {
    if b == 0 {
        seq![0u8, 255u8]
    } else {
        seq![b]
    }
}

/// The escaped form of a payload.
pub open spec fn esc(s: Seq<u8>) -> Seq<u8>
    decreases s.len(),
{
    if s.len() == 0 {
        Seq::empty()
    } else {
        esc_byte(s[0]) + esc(s.skip(1))
    }
}

proof fn lemma_esc_snoc(s: Seq<u8>, b: u8)
    ensures
        esc(s.push(b)) == esc(s) + esc_byte(b),
    decreases s.len(),
{
    if s.len() == 0 {
        reveal_with_fuel(esc, 3);
        assert(s.push(b).skip(1) =~= Seq::<u8>::empty());
        assert(esc(s.push(b)) =~= esc_byte(b));
        assert(esc(s) + esc_byte(b) =~= esc_byte(b));
    } else {
        assert(s.push(b).skip(1) =~= s.skip(1).push(b));
        lemma_esc_snoc(s.skip(1), b);
        assert(esc(s.push(b)) =~= esc(s) + esc_byte(b));
    }
}

// ---------------------------------------------------------------------------
// Fixed-width big-endian integers
// ---------------------------------------------------------------------------

/// 256 to the power `n`.
pub open spec fn pow256(n: nat) -> int
    decreases n,
{
    if n == 0 {
        1
    } else {
        256 * pow256((n - 1) as nat)
    }
}

proof fn lemma_pow256_pos(n: nat)
    ensures
        pow256(n) >= 1,
    decreases n,
{
    if n > 0 {
        lemma_pow256_pos((n - 1) as nat);
    }
}

/// The `n`-byte big-endian form of a nonnegative integer below `256^n`.
pub open spec fn be_bytes(x: int, n: nat) -> Seq<u8>
    decreases n,
{
    if n == 0 {
        Seq::empty()
    } else {
        seq![(x / pow256((n - 1) as nat)) as u8] + be_bytes(
            x % pow256((n - 1) as nat),
            (n - 1) as nat,
        )
    }
}

proof fn lemma_be_bytes_len(x: int, n: nat)
    ensures
        be_bytes(x, n).len() == n,
    decreases n,
{
    if n > 0 {
        lemma_pow256_pos((n - 1) as nat);
        lemma_be_bytes_len(x % pow256((n - 1) as nat), (n - 1) as nat);
    }
}

/// Big-endian encoding preserves the numeric order.
proof fn lemma_be_bytes_lt(x: int, y: int, n: nat)
    requires
        0 <= x < y < pow256(n),
    ensures
        bytes_lt(be_bytes(x, n), be_bytes(y, n)),
    decreases n,
{
    assert(n > 0);
    let m = pow256((n - 1) as nat);
    lemma_pow256_pos((n - 1) as nat);
    let hx = x / m;
    let hy = y / m;
    vstd::arithmetic::div_mod::lemma_div_is_ordered(x, y, m);
    vstd::arithmetic::div_mod::lemma_fundamental_div_mod(x, m);
    vstd::arithmetic::div_mod::lemma_fundamental_div_mod(y, m);
    vstd::arithmetic::div_mod::lemma_mod_bound(x, m);
    vstd::arithmetic::div_mod::lemma_mod_bound(y, m);
    assert(0 <= hx <= hy);
    assert(hy < 256) by {
        assert(y < 256 * m);
        vstd::arithmetic::div_mod::lemma_div_is_ordered(y, 256 * m - 1, m);
        assert((256 * m - 1) / m == 255) by {
            vstd::arithmetic::div_mod::lemma_fundamental_div_mod_converse(
                256 * m - 1,
                m,
                255,
                m - 1,
            );
        }
    }
    lemma_be_bytes_len(x % m, (n - 1) as nat);
    lemma_be_bytes_len(y % m, (n - 1) as nat);
    if hx < hy {
        lemma_bytes_lt_head(be_bytes(x, n), be_bytes(y, n));
    } else {
        assert(x % m < y % m);
        lemma_be_bytes_lt(x % m, y % m, (n - 1) as nat);
        assert(be_bytes(x, n).skip(1) =~= be_bytes(x % m, (n - 1) as nat));
        assert(be_bytes(y, n).skip(1) =~= be_bytes(y % m, (n - 1) as nat));
    }
}

/// The integer a big-endian byte sequence stands for.
pub open spec fn from_be(s: Seq<u8>) -> int
    decreases s.len(),
{
    if s.len() == 0 {
        0
    } else {
        s[0] * pow256((s.len() - 1) as nat) + from_be(s.skip(1))
    }
}

proof fn lemma_from_be_bytes(x: int, n: nat)
    requires
        0 <= x < pow256(n),
    ensures
        from_be(be_bytes(x, n)) == x,
    decreases n,
{
    if n > 0 {
        let m = pow256((n - 1) as nat);
        lemma_pow256_pos((n - 1) as nat);
        vstd::arithmetic::div_mod::lemma_fundamental_div_mod(x, m);
        vstd::arithmetic::div_mod::lemma_mod_bound(x, m);
        assert(x / m < 256) by {
            assert(x < 256 * m);
            vstd::arithmetic::div_mod::lemma_div_is_ordered(x, 256 * m - 1, m);
            assert((256 * m - 1) / m == 255) by {
                vstd::arithmetic::div_mod::lemma_fundamental_div_mod_converse(
                    256 * m - 1,
                    m,
                    255,
                    m - 1,
                );
            }
        }
        assert(x / m >= 0) by {
            vstd::arithmetic::div_mod::lemma_div_pos_is_pos(x, m);
        }
        lemma_from_be_bytes(x % m, (n - 1) as nat);
        lemma_be_bytes_len(x % m, (n - 1) as nat);
        assert(be_bytes(x, n).skip(1) =~= be_bytes(x % m, (n - 1) as nat));
        assert(be_bytes(x, n)[0] == (x / m) as u8);
        assert(from_be(be_bytes(x, n)) == (x / m) * m + x % m);
    }
}

// ---------------------------------------------------------------------------
// Value encoding
// ---------------------------------------------------------------------------

/// Whether a model value fits the machine representation: integers lie in
/// the signed 64-bit range. Every view of an executable `Value` does.
pub open spec fn wf_val(v: ValM) -> bool
    decreases v,
{
    match v {
        ValM::Bool(_) => true,
        ValM::Int(i) => -0x8000_0000_0000_0000 <= i < 0x8000_0000_0000_0000,
        ValM::Text(_) => true,
        ValM::Blob(_) => true,
        ValM::List(l) => forall|i: int| 0 <= i < l.len() ==> wf_val(#[trigger] l[i]),
    }
}

pub open spec fn wf_vals(l: Seq<ValM>) -> bool {
    forall|i: int| 0 <= i < l.len() ==> wf_val(#[trigger] l[i])
}

/// The tag byte of a value, equal to its variant's rank in the value order.
pub open spec fn tag_of(v: ValM) -> u8 {
    match v {
        ValM::Bool(_) => TAG_BOOL,
        ValM::Int(_) => TAG_INT,
        ValM::Text(_) => TAG_TEXT,
        ValM::Blob(_) => TAG_BLOB,
        ValM::List(_) => TAG_LIST,
    }
}

/// The encoding of one value.
pub open spec fn enc_val(v: ValM) -> Seq<u8>
    decreases v,
{
    match v {
        ValM::Bool(b) => seq![TAG_BOOL, if b { 1u8 } else { 0u8 }],
        ValM::Int(i) => seq![TAG_INT] + be_bytes(i + INT_OFFSET, 8),
        ValM::Text(s) => seq![TAG_TEXT] + esc(s) + seq![0u8],
        ValM::Blob(s) => seq![TAG_BLOB] + esc(s) + seq![0u8],
        ValM::List(l) => seq![TAG_LIST] + enc_vals(l) + seq![0u8],
    }
}

/// The concatenated encodings of a sequence of values: the encoding of a
/// tuple.
pub open spec fn enc_vals(l: Seq<ValM>) -> Seq<u8>
    decreases l,
{
    if l.len() == 0 {
        Seq::empty()
    } else {
        enc_val(l[0]) + enc_vals(l.skip(1))
    }
}

/// Every value encoding is nonempty and starts with its tag, which is never
/// zero (the terminator) and never 255 (the escape continuation).
proof fn lemma_enc_val_head(v: ValM)
    ensures
        enc_val(v).len() > 0,
        enc_val(v)[0] == tag_of(v),
        1 <= tag_of(v) <= 5,
{
}

proof fn lemma_enc_vals_snoc(l: Seq<ValM>, v: ValM)
    ensures
        enc_vals(l.push(v)) == enc_vals(l) + enc_val(v),
    decreases l.len(),
{
    if l.len() == 0 {
        reveal_with_fuel(enc_vals, 3);
        assert(l.push(v).skip(1) =~= Seq::<ValM>::empty());
        assert(enc_vals(l.push(v)) =~= enc_val(v));
        assert(enc_vals(l) + enc_val(v) =~= enc_val(v));
    } else {
        assert(l.push(v).skip(1) =~= l.skip(1).push(v));
        lemma_enc_vals_snoc(l.skip(1), v);
        assert(enc_vals(l.push(v)) =~= enc_vals(l) + enc_val(v));
    }
}

// ---------------------------------------------------------------------------
// Value order
// ---------------------------------------------------------------------------

/// The strict total order on values that the encoding reproduces. Variants
/// order by tag; within a variant, booleans put false first, integers use
/// the numeric order, text and blobs the bytewise order, lists the
/// elementwise order.
pub open spec fn val_lt(a: ValM, b: ValM) -> bool
    decreases a,
{
    if tag_of(a) != tag_of(b) {
        tag_of(a) < tag_of(b)
    } else {
        match (a, b) {
            (ValM::Bool(x), ValM::Bool(y)) => !x && y,
            (ValM::Int(x), ValM::Int(y)) => x < y,
            (ValM::Text(x), ValM::Text(y)) => bytes_lt(x, y),
            (ValM::Blob(x), ValM::Blob(y)) => bytes_lt(x, y),
            (ValM::List(x), ValM::List(y)) => vals_lt(x, y),
            _ => false,
        }
    }
}

/// The strict order on tuples: elementwise, a proper prefix first.
pub open spec fn vals_lt(x: Seq<ValM>, y: Seq<ValM>) -> bool
    decreases x,
{
    if y.len() == 0 {
        false
    } else if x.len() == 0 {
        true
    } else if x[0] == y[0] {
        vals_lt(x.skip(1), y.skip(1))
    } else {
        val_lt(x[0], y[0])
    }
}

/// The value order is a strict total order.
pub proof fn lemma_val_order_total(a: ValM, b: ValM)
    ensures
        val_lt(a, b) || val_lt(b, a) || a == b,
        val_lt(a, b) ==> !val_lt(b, a) && a != b,
    decreases a,
{
    if tag_of(a) == tag_of(b) {
        match (a, b) {
            (ValM::Text(x), ValM::Text(y)) => lemma_bytes_lt_total(x, y),
            (ValM::Blob(x), ValM::Blob(y)) => lemma_bytes_lt_total(x, y),
            (ValM::List(x), ValM::List(y)) => lemma_vals_order_total(x, y),
            _ => {},
        }
    }
}

/// The tuple order is a strict total order.
pub proof fn lemma_vals_order_total(x: Seq<ValM>, y: Seq<ValM>)
    ensures
        vals_lt(x, y) || vals_lt(y, x) || x == y,
        vals_lt(x, y) ==> !vals_lt(y, x) && x != y,
    decreases x,
{
    if x.len() == 0 && y.len() == 0 {
        assert(x =~= y);
    } else if x.len() > 0 && y.len() > 0 {
        lemma_val_order_total(x[0], y[0]);
        if x[0] == y[0] {
            lemma_vals_order_total(x.skip(1), y.skip(1));
            if x.skip(1) == y.skip(1) {
                assert(x =~= y) by {
                    assert forall|i: int| 0 <= i < x.len() implies x[i] == y[i] by {
                        if i > 0 {
                            assert(x[i] == x.skip(1)[i - 1]);
                            assert(y[i] == y.skip(1)[i - 1]);
                        }
                    }
                }
            }
        }
    }
}

// ---------------------------------------------------------------------------
// Order preservation
// ---------------------------------------------------------------------------

/// Whether a byte sequence may follow a value encoding inside a tuple: it is
/// empty or starts below the escape continuation byte. Tags and terminators
/// do.
pub open spec fn first_ok(a: Seq<u8>) -> bool {
    a.len() == 0 || a[0] != 255
}

/// Escaped payloads in order stay in order, whatever well-formed tails
/// follow their terminators.
proof fn lemma_esc_order(s: Seq<u8>, t: Seq<u8>, a: Seq<u8>, b: Seq<u8>)
    requires
        bytes_lt(s, t),
        first_ok(a),
    ensures
        bytes_lt(esc(s) + seq![0u8] + a, esc(t) + seq![0u8] + b),
    decreases s.len(),
{
    let gl = esc(s) + seq![0u8] + a;
    let gr = esc(t) + seq![0u8] + b;
    if s.len() == 0 {
        if t[0] == 0 {
            let rest = seq![255u8] + esc(t.skip(1)) + seq![0u8] + b;
            assert(gl =~= seq![0u8] + a);
            assert(gr =~= seq![0u8] + rest);
            lemma_bytes_lt_common(seq![0u8], a, rest);
            if a.len() > 0 {
                lemma_bytes_lt_head(a, rest);
            }
        } else {
            assert(gl[0] == 0 && gr[0] == t[0]);
            lemma_bytes_lt_head(gl, gr);
        }
    } else if s[0] == t[0] {
        assert(gl =~= esc_byte(s[0]) + (esc(s.skip(1)) + seq![0u8] + a));
        assert(gr =~= esc_byte(t[0]) + (esc(t.skip(1)) + seq![0u8] + b));
        lemma_esc_order(s.skip(1), t.skip(1), a, b);
        lemma_bytes_lt_common(
            esc_byte(s[0]),
            esc(s.skip(1)) + seq![0u8] + a,
            esc(t.skip(1)) + seq![0u8] + b,
        );
    } else {
        assert(gl[0] == s[0] && gr[0] == t[0]);
        lemma_bytes_lt_head(gl, gr);
    }
}

/// Encodings of values in order stay in order, whatever well-formed tails
/// follow them. This is what lets value encodings be concatenated into
/// tuple keys.
proof fn lemma_enc_val_lt(x: ValM, y: ValM, a: Seq<u8>, b: Seq<u8>)
    requires
        val_lt(x, y),
        wf_val(x),
        wf_val(y),
        first_ok(a),
    ensures
        bytes_lt(enc_val(x) + a, enc_val(y) + b),
    decreases x,
{
    lemma_enc_val_head(x);
    lemma_enc_val_head(y);
    if tag_of(x) != tag_of(y) {
        lemma_bytes_lt_head(enc_val(x) + a, enc_val(y) + b);
    } else {
        match (x, y) {
            (ValM::Bool(p), ValM::Bool(q)) => {
                let s = seq![TAG_BOOL, 0u8];
                let t = seq![TAG_BOOL, 1u8];
                assert(s.skip(1) =~= seq![0u8]);
                assert(t.skip(1) =~= seq![1u8]);
                assert(bytes_lt(s, t)) by {
                    reveal_with_fuel(bytes_lt, 3);
                }
                lemma_bytes_lt_append_strict(s, t, a, b);
                assert(enc_val(x) + a =~= s + a);
                assert(enc_val(y) + b =~= t + b);
            },
            (ValM::Int(i), ValM::Int(j)) => {
                assert(pow256(8) == 0x1_0000_0000_0000_0000) by {
                    reveal_with_fuel(pow256, 9);
                }
                let ki = i + INT_OFFSET;
                let kj = j + INT_OFFSET;
                lemma_be_bytes_lt(ki, kj, 8);
                lemma_be_bytes_len(ki, 8);
                lemma_be_bytes_len(kj, 8);
                let s = seq![TAG_INT] + be_bytes(ki, 8);
                let t = seq![TAG_INT] + be_bytes(kj, 8);
                assert(bytes_lt(s, t)) by {
                    lemma_bytes_lt_common(seq![TAG_INT], be_bytes(ki, 8), be_bytes(kj, 8));
                }
                lemma_bytes_lt_append_strict(s, t, a, b);
                assert(enc_val(x) + a =~= s + a);
                assert(enc_val(y) + b =~= t + b);
            },
            (ValM::Text(s1), ValM::Text(t1)) => {
                lemma_esc_order(s1, t1, a, b);
                lemma_bytes_lt_common(
                    seq![TAG_TEXT],
                    esc(s1) + seq![0u8] + a,
                    esc(t1) + seq![0u8] + b,
                );
                assert(enc_val(x) + a =~= seq![TAG_TEXT] + (esc(s1) + seq![0u8] + a));
                assert(enc_val(y) + b =~= seq![TAG_TEXT] + (esc(t1) + seq![0u8] + b));
            },
            (ValM::Blob(s1), ValM::Blob(t1)) => {
                lemma_esc_order(s1, t1, a, b);
                lemma_bytes_lt_common(
                    seq![TAG_BLOB],
                    esc(s1) + seq![0u8] + a,
                    esc(t1) + seq![0u8] + b,
                );
                assert(enc_val(x) + a =~= seq![TAG_BLOB] + (esc(s1) + seq![0u8] + a));
                assert(enc_val(y) + b =~= seq![TAG_BLOB] + (esc(t1) + seq![0u8] + b));
            },
            (ValM::List(lx), ValM::List(ly)) => {
                lemma_enc_vals_lt_term(lx, ly, a, b);
                lemma_bytes_lt_common(
                    seq![TAG_LIST],
                    enc_vals(lx) + seq![0u8] + a,
                    enc_vals(ly) + seq![0u8] + b,
                );
                assert(enc_val(x) + a =~= seq![TAG_LIST] + (enc_vals(lx) + seq![0u8] + a));
                assert(enc_val(y) + b =~= seq![TAG_LIST] + (enc_vals(ly) + seq![0u8] + b));
            },
            _ => {},
        }
    }
}

/// The list form of the previous lemma: terminated element sequences in
/// order stay in order under well-formed tails.
proof fn lemma_enc_vals_lt_term(xs: Seq<ValM>, ys: Seq<ValM>, a: Seq<u8>, b: Seq<u8>)
    requires
        vals_lt(xs, ys),
        wf_vals(xs),
        wf_vals(ys),
        first_ok(a),
    ensures
        bytes_lt(enc_vals(xs) + seq![0u8] + a, enc_vals(ys) + seq![0u8] + b),
    decreases xs,
{
    let gl = enc_vals(xs) + seq![0u8] + a;
    let gr = enc_vals(ys) + seq![0u8] + b;
    lemma_enc_val_head(ys[0]);
    if xs.len() == 0 {
        assert(gl =~= seq![0u8] + a);
        assert(gr =~= enc_val(ys[0]) + (enc_vals(ys.skip(1)) + seq![0u8] + b));
        assert(gl[0] == 0 && gr[0] == tag_of(ys[0]));
        lemma_bytes_lt_head(gl, gr);
    } else if xs[0] == ys[0] {
        assert(wf_vals(xs.skip(1))) by {
            assert(forall|i: int|
                0 <= i < xs.skip(1).len() ==> xs.skip(1)[i] == xs[i + 1]);
        }
        assert(wf_vals(ys.skip(1))) by {
            assert(forall|i: int|
                0 <= i < ys.skip(1).len() ==> ys.skip(1)[i] == ys[i + 1]);
        }
        lemma_enc_vals_lt_term(xs.skip(1), ys.skip(1), a, b);
        lemma_bytes_lt_common(
            enc_val(xs[0]),
            enc_vals(xs.skip(1)) + seq![0u8] + a,
            enc_vals(ys.skip(1)) + seq![0u8] + b,
        );
        assert(gl =~= enc_val(xs[0]) + (enc_vals(xs.skip(1)) + seq![0u8] + a));
        assert(gr =~= enc_val(ys[0]) + (enc_vals(ys.skip(1)) + seq![0u8] + b));
    } else {
        lemma_enc_val_head(xs[0]);
        let ta = enc_vals(xs.skip(1)) + seq![0u8] + a;
        let tb = enc_vals(ys.skip(1)) + seq![0u8] + b;
        assert(first_ok(ta)) by {
            if xs.skip(1).len() > 0 {
                lemma_enc_val_head(xs.skip(1)[0]);
            }
        }
        lemma_enc_val_lt(xs[0], ys[0], ta, tb);
        assert(gl =~= enc_val(xs[0]) + ta);
        assert(gr =~= enc_val(ys[0]) + tb);
    }
}

/// Tuple encodings of tuples in order are in byte order.
proof fn lemma_enc_vals_lt(xs: Seq<ValM>, ys: Seq<ValM>)
    requires
        vals_lt(xs, ys),
        wf_vals(xs),
        wf_vals(ys),
    ensures
        bytes_lt(enc_vals(xs), enc_vals(ys)),
    decreases xs,
{
    lemma_enc_val_head(ys[0]);
    if xs.len() == 0 {
        assert(enc_vals(ys).len() > 0);
    } else if xs[0] == ys[0] {
        assert(wf_vals(xs.skip(1))) by {
            assert(forall|i: int|
                0 <= i < xs.skip(1).len() ==> xs.skip(1)[i] == xs[i + 1]);
        }
        assert(wf_vals(ys.skip(1))) by {
            assert(forall|i: int|
                0 <= i < ys.skip(1).len() ==> ys.skip(1)[i] == ys[i + 1]);
        }
        lemma_enc_vals_lt(xs.skip(1), ys.skip(1));
        lemma_bytes_lt_common(enc_val(xs[0]), enc_vals(xs.skip(1)), enc_vals(ys.skip(1)));
    } else {
        lemma_enc_val_head(xs[0]);
        assert(first_ok(enc_vals(xs.skip(1)))) by {
            if xs.skip(1).len() > 0 {
                lemma_enc_val_head(xs.skip(1)[0]);
            }
        }
        lemma_enc_val_lt(xs[0], ys[0], enc_vals(xs.skip(1)), enc_vals(ys.skip(1)));
    }
}

/// Order preservation: two tuples compare in value order exactly as their
/// encodings compare in byte order.
pub proof fn lemma_tuple_order_preserved(a: Seq<ValM>, b: Seq<ValM>)
    requires
        wf_vals(a),
        wf_vals(b),
    ensures
        vals_lt(a, b) <==> bytes_lt(enc_vals(a), enc_vals(b)),
{
    if vals_lt(a, b) {
        lemma_enc_vals_lt(a, b);
    } else {
        lemma_vals_order_total(a, b);
        if a == b {
            lemma_bytes_lt_total(enc_vals(a), enc_vals(b));
        } else {
            lemma_enc_vals_lt(b, a);
            lemma_bytes_lt_total(enc_vals(b), enc_vals(a));
        }
    }
}

/// The encoding is injective on well-formed tuples.
pub proof fn lemma_enc_vals_injective(a: Seq<ValM>, b: Seq<ValM>)
    requires
        wf_vals(a),
        wf_vals(b),
        enc_vals(a) == enc_vals(b),
    ensures
        a == b,
{
    lemma_vals_order_total(a, b);
    if a != b {
        lemma_tuple_order_preserved(a, b);
        lemma_tuple_order_preserved(b, a);
        lemma_bytes_lt_total(enc_vals(a), enc_vals(b));
    }
}

// ---------------------------------------------------------------------------
// Decoding
// ---------------------------------------------------------------------------

/// Decoding a malformed byte sequence (truncated field, stray byte, unknown
/// tag) fails with `CorruptData`: storage corruption or a schema mismatch,
/// fatal for the read in progress.
#[derive(Debug, PartialEq, Eq, Structural)]
pub enum CodecError {
    CorruptData,
}

/// Reads an escaped payload up to and including its terminator; yields the
/// payload and the count of bytes consumed.
pub open spec fn dec_bytes(s: Seq<u8>) -> Option<(Seq<u8>, int)>
    decreases s.len(),
{
    if s.len() == 0 {
        None
    } else if s[0] == 0 {
        if s.len() >= 2 && s[1] == 255 {
            match dec_bytes(s.skip(2)) {
                Some((t, n)) => Some((seq![0u8] + t, n + 2)),
                None => None,
            }
        } else {
            Some((Seq::empty(), 1))
        }
    } else {
        match dec_bytes(s.skip(1)) {
            Some((t, n)) => Some((seq![s[0]] + t, n + 1)),
            None => None,
        }
    }
}

/// Reads one encoded value; yields it and the count of bytes consumed.
pub open spec fn dec_val(s: Seq<u8>) -> Option<(ValM, int)>
    decreases s.len(), 0int,
{
    if s.len() == 0 {
        None
    } else if s[0] == TAG_BOOL {
        if s.len() >= 2 && (s[1] == 0 || s[1] == 1) {
            Some((ValM::Bool(s[1] == 1), 2))
        } else {
            None
        }
    } else if s[0] == TAG_INT {
        if s.len() >= 9 {
            Some((ValM::Int(from_be(s.subrange(1, 9)) - INT_OFFSET), 9))
        } else {
            None
        }
    } else if s[0] == TAG_TEXT {
        match dec_bytes(s.skip(1)) {
            Some((t, n)) => Some((ValM::Text(t), 1 + n)),
            None => None,
        }
    } else if s[0] == TAG_BLOB {
        match dec_bytes(s.skip(1)) {
            Some((t, n)) => Some((ValM::Blob(t), 1 + n)),
            None => None,
        }
    } else if s[0] == TAG_LIST {
        match dec_vals(s.skip(1)) {
            Some((l, n)) => Some((ValM::List(l), 1 + n)),
            None => None,
        }
    } else {
        None
    }
}

/// Reads encoded values up to and including a zero terminator.
pub open spec fn dec_vals(s: Seq<u8>) -> Option<(Seq<ValM>, int)>
    decreases s.len(), 1int,
{
    if s.len() == 0 {
        None
    } else if s[0] == 0 {
        Some((Seq::empty(), 1))
    } else {
        match dec_val(s) {
            Some((v, n)) => if 1 <= n <= s.len() {
                match dec_vals(s.skip(n)) {
                    Some((l, m)) => Some((seq![v] + l, n + m)),
                    None => None,
                }
            } else {
                None
            },
            None => None,
        }
    }
}

/// Reads a whole tuple: values until the input is exhausted.
pub open spec fn dec_tuple(s: Seq<u8>) -> Option<Seq<ValM>>
    decreases s.len(),
{
    if s.len() == 0 {
        Some(Seq::empty())
    } else {
        match dec_val(s) {
            Some((v, n)) => if 1 <= n <= s.len() {
                match dec_tuple(s.skip(n)) {
                    Some(l) => Some(seq![v] + l),
                    None => None,
                }
            } else {
                None
            },
            None => None,
        }
    }
}

proof fn lemma_dec_bytes_esc(s: Seq<u8>, rest: Seq<u8>)
    requires
        first_ok(rest),
    ensures
        dec_bytes(esc(s) + seq![0u8] + rest) == Some((s, esc(s).len() + 1int)),
    decreases s.len(),
{
    let inp = esc(s) + seq![0u8] + rest;
    if s.len() == 0 {
        assert(inp =~= seq![0u8] + rest);
        assert(inp[0] == 0);
        assert(!(inp.len() >= 2 && inp[1] == 255));
    } else if s[0] == 0 {
        assert(inp =~= seq![0u8, 255u8] + (esc(s.skip(1)) + seq![0u8] + rest));
        assert(inp.skip(2) =~= esc(s.skip(1)) + seq![0u8] + rest);
        lemma_dec_bytes_esc(s.skip(1), rest);
        assert(seq![0u8] + s.skip(1) =~= s);
        assert(esc(s).len() == 2 + esc(s.skip(1)).len());
    } else {
        assert(inp =~= seq![s[0]] + (esc(s.skip(1)) + seq![0u8] + rest));
        assert(inp.skip(1) =~= esc(s.skip(1)) + seq![0u8] + rest);
        lemma_dec_bytes_esc(s.skip(1), rest);
        assert(seq![s[0]] + s.skip(1) =~= s);
        assert(esc(s).len() == 1 + esc(s.skip(1)).len());
    }
}

/// Round trip of one value: decoding an encoding followed by a well-formed
/// tail yields the value back and consumes exactly the encoding.
pub proof fn lemma_dec_enc_val(v: ValM, rest: Seq<u8>)
    requires
        wf_val(v),
        first_ok(rest),
    ensures
        dec_val(enc_val(v) + rest) == Some((v, enc_val(v).len() as int)),
    decreases v,
{
    let inp = enc_val(v) + rest;
    lemma_enc_val_head(v);
    match v {
        ValM::Bool(b) => {
            assert(inp[0] == TAG_BOOL && inp.len() >= 2);
            assert(inp[1] == (if b {
                1u8
            } else {
                0u8
            }));
        },
        ValM::Int(i) => {
            assert(pow256(8) == 0x1_0000_0000_0000_0000) by {
                reveal_with_fuel(pow256, 9);
            }
            let k = i + INT_OFFSET;
            lemma_be_bytes_len(k, 8);
            assert(inp[0] == TAG_INT && inp.len() >= 9);
            assert(inp.subrange(1, 9) =~= be_bytes(k, 8));
            lemma_from_be_bytes(k, 8);
        },
        ValM::Text(t) => {
            assert(inp.skip(1) =~= esc(t) + seq![0u8] + rest);
            lemma_dec_bytes_esc(t, rest);
            assert(enc_val(v).len() == 1 + esc(t).len() + 1);
        },
        ValM::Blob(t) => {
            assert(inp.skip(1) =~= esc(t) + seq![0u8] + rest);
            lemma_dec_bytes_esc(t, rest);
            assert(enc_val(v).len() == 1 + esc(t).len() + 1);
        },
        ValM::List(l) => {
            assert(inp.skip(1) =~= enc_vals(l) + seq![0u8] + rest);
            lemma_dec_enc_vals(l, rest);
            assert(enc_val(v).len() == 1 + enc_vals(l).len() + 1);
        },
    }
}

/// Round trip of a terminated element sequence.
proof fn lemma_dec_enc_vals(l: Seq<ValM>, rest: Seq<u8>)
    requires
        wf_vals(l),
        first_ok(rest),
    ensures
        dec_vals(enc_vals(l) + seq![0u8] + rest) == Some((l, enc_vals(l).len() + 1int)),
    decreases l,
{
    let inp = enc_vals(l) + seq![0u8] + rest;
    if l.len() == 0 {
        assert(inp =~= seq![0u8] + rest);
        assert(l =~= Seq::<ValM>::empty());
    } else {
        lemma_enc_val_head(l[0]);
        let tail = enc_vals(l.skip(1)) + seq![0u8] + rest;
        assert(first_ok(tail)) by {
            if l.skip(1).len() > 0 {
                lemma_enc_val_head(l.skip(1)[0]);
            }
        }
        assert(inp =~= enc_val(l[0]) + tail);
        lemma_dec_enc_val(l[0], tail);
        let n0 = enc_val(l[0]).len() as int;
        assert(inp[0] == tag_of(l[0]) && inp[0] != 0);
        assert(inp.skip(n0) =~= tail);
        assert(wf_vals(l.skip(1))) by {
            assert(forall|i: int| 0 <= i < l.skip(1).len() ==> l.skip(1)[i] == l[i + 1]);
        }
        lemma_dec_enc_vals(l.skip(1), rest);
        assert(seq![l[0]] + l.skip(1) =~= l);
        assert(enc_vals(l).len() == n0 + enc_vals(l.skip(1)).len());
    }
}

/// Round trip: decoding the encoding of a tuple yields the tuple.
pub proof fn lemma_tuple_round_trip(vs: Seq<ValM>)
    requires
        wf_vals(vs),
    ensures
        dec_tuple(enc_vals(vs)) == Some(vs),
    decreases vs,
{
    if vs.len() == 0 {
        assert(enc_vals(vs) =~= Seq::<u8>::empty());
        assert(vs =~= Seq::<ValM>::empty());
    } else {
        lemma_enc_val_head(vs[0]);
        let inp = enc_vals(vs);
        let tail = enc_vals(vs.skip(1));
        assert(first_ok(tail)) by {
            if vs.skip(1).len() > 0 {
                lemma_enc_val_head(vs.skip(1)[0]);
            }
        }
        assert(inp =~= enc_val(vs[0]) + tail);
        lemma_dec_enc_val(vs[0], tail);
        let n0 = enc_val(vs[0]).len() as int;
        assert(inp.skip(n0) =~= tail);
        assert(wf_vals(vs.skip(1))) by {
            assert(forall|i: int| 0 <= i < vs.skip(1).len() ==> vs.skip(1)[i] == vs[i + 1]);
        }
        lemma_tuple_round_trip(vs.skip(1));
        assert(seq![vs[0]] + vs.skip(1) =~= vs);
        assert(inp.len() > 0);
    }
}

proof fn lemma_pow256_mono(m: nat, n: nat)
    requires
        m <= n,
    ensures
        pow256(m) <= pow256(n),
    decreases n,
{
    if m < n {
        lemma_pow256_mono(m, (n - 1) as nat);
        lemma_pow256_pos((n - 1) as nat);
    }
}

proof fn lemma_from_be_snoc(s: Seq<u8>, b: u8)
    ensures
        from_be(s.push(b)) == 256 * from_be(s) + b,
    decreases s.len(),
{
    if s.len() == 0 {
        reveal_with_fuel(from_be, 3);
        assert(s.push(b).skip(1) =~= Seq::<u8>::empty());
    } else {
        assert(s.push(b).skip(1) =~= s.skip(1).push(b));
        lemma_from_be_snoc(s.skip(1), b);
        let n = s.len() as nat;
        assert(s.push(b)[0] == s[0]);
        assert(from_be(s.push(b)) == s[0] * pow256(n) + from_be(s.skip(1).push(b)));
        assert(s[0] * pow256(n) == 256 * (s[0] * pow256((n - 1) as nat))) by (nonlinear_arith)
            requires
                pow256(n) == 256 * pow256((n - 1) as nat),
        ;
    }
}

/// Reads the escaped payload that starts at `pos`, through its terminator.
fn decode_bytes_at(data: &Vec<u8>, pos: usize) -> (r: Result<(Vec<u8>, usize), CodecError>)
    requires
        pos <= data.len(),
    ensures
        match r {
            Ok((t, np)) => {
                &&& pos < np <= data.len()
                &&& dec_bytes(data@.skip(pos as int)) == Some((t@, np - pos as int))
            },
            Err(_) => dec_bytes(data@.skip(pos as int)) is None,
        },
{
    let mut out: Vec<u8> = Vec::new();
    let mut i = pos;
    loop
        invariant
            pos <= i <= data.len(),
            (dec_bytes(data@.skip(pos as int)) is Some) == (dec_bytes(data@.skip(i as int))
                is Some),
            dec_bytes(data@.skip(i as int)) matches Some((t2, n2)) ==> dec_bytes(
                data@.skip(pos as int),
            ) == Some((out@ + t2, n2 + i - pos)),
        decreases data.len() - i,
    {
        let ghost si = data@.skip(i as int);
        if i >= data.len() {
            proof {
                assert(si.len() == 0);
            }
            return Err(CodecError::CorruptData);
        }
        let b = data[i];
        proof {
            assert(si[0] == b);
        }
        if b == 0 {
            if i + 1 < data.len() && data[i + 1] == 255 {
                proof {
                    assert(si.len() >= 2 && si[1] == 255);
                    assert(si.skip(2) =~= data@.skip(i + 2));
                    if let Some((t3, n3)) = dec_bytes(data@.skip(i + 2)) {
                        assert((out@ + seq![0u8]) + t3 =~= out@ + (seq![0u8] + t3));
                    }
                }
                out.push(0);
                i = i + 2;
            } else {
                proof {
                    assert(!(si.len() >= 2 && si[1] == 255));
                    assert(dec_bytes(si) == Some((Seq::<u8>::empty(), 1int)));
                    assert(out@ + Seq::<u8>::empty() =~= out@);
                }
                return Ok((out, i + 1));
            }
        } else {
            proof {
                assert(si.skip(1) =~= data@.skip(i + 1));
                if let Some((t3, n3)) = dec_bytes(data@.skip(i + 1)) {
                    assert((out@ + seq![b]) + t3 =~= out@ + (seq![b] + t3));
                }
            }
            out.push(b);
            i = i + 1;
        }
    }
}

/// Reads the encoded value that starts at `pos`; yields it and the position
/// just past it.
pub fn decode_value_at(data: &Vec<u8>, pos: usize) -> (r: Result<(Value, usize), CodecError>)
    requires
        pos <= data.len(),
    ensures
        match r {
            Ok((v, np)) => {
                &&& pos < np <= data.len()
                &&& dec_val(data@.skip(pos as int)) == Some((v@, np - pos as int))
            },
            Err(_) => dec_val(data@.skip(pos as int)) is None,
        },
    decreases data.len() - pos,
{
    let ghost s = data@.skip(pos as int);
    if pos >= data.len() {
        return Err(CodecError::CorruptData);
    }
    let tag = data[pos];
    proof {
        assert(s[0] == tag);
    }
    if tag == TAG_BOOL {
        if pos + 1 < data.len() && (data[pos + 1] == 0 || data[pos + 1] == 1) {
            proof {
                assert(s.len() >= 2 && s[1] == data@[pos + 1]);
            }
            Ok((Value::Bool(data[pos + 1] == 1), pos + 2))
        } else {
            proof {
                assert(!(s.len() >= 2 && (s[1] == 0 || s[1] == 1)));
            }
            Err(CodecError::CorruptData)
        }
    } else if tag == TAG_INT {
        if data.len() - pos >= 9 {
            proof {
                assert(pow256(8) == 0x1_0000_0000_0000_0000 && pow256(0) == 1) by {
                    reveal_with_fuel(pow256, 9);
                }
            }
            let mut k: u64 = 0;
            let mut j: usize = 0;
            while j < 8
                invariant
                    0 <= j <= 8,
                    pos + 9 <= data.len(),
                    k == from_be(data@.subrange(pos + 1, pos + 1 + j)),
                    0 <= k < pow256(j as nat),
                    pow256(8) == 0x1_0000_0000_0000_0000,
                decreases 8 - j,
            {
                let ghost pre = data@.subrange(pos + 1, pos + 1 + j);
                let b = data[pos + 1 + j];
                proof {
                    lemma_pow256_mono((j + 1) as nat, 8);
                    lemma_pow256_pos(j as nat);
                    assert(pow256((j + 1) as nat) == 256 * pow256(j as nat));
                    lemma_from_be_snoc(pre, b);
                    assert(data@.subrange(pos + 1, pos + 1 + (j + 1)) =~= pre.push(b));
                }
                k = k * 256 + (b as u64);
                j = j + 1;
            }
            proof {
                assert(s.subrange(1, 9) =~= data@.subrange(pos + 1, pos + 9));
            }
            let v: i64 = if k >= INT_OFFSET {
                (k - INT_OFFSET) as i64
            } else {
                (k as i64) + i64::MIN
            };
            Ok((Value::Int(v), pos + 9))
        } else {
            proof {
                assert(s.len() < 9);
            }
            Err(CodecError::CorruptData)
        }
    } else if tag == TAG_TEXT {
        proof {
            assert(s.skip(1) =~= data@.skip(pos + 1));
        }
        match decode_bytes_at(data, pos + 1) {
            Ok((t, np)) => Ok((Value::Text(t), np)),
            Err(e) => Err(e),
        }
    } else if tag == TAG_BLOB {
        proof {
            assert(s.skip(1) =~= data@.skip(pos + 1));
        }
        match decode_bytes_at(data, pos + 1) {
            Ok((t, np)) => Ok((Value::Blob(t), np)),
            Err(e) => Err(e),
        }
    } else if tag == TAG_LIST {
        proof {
            assert(s.skip(1) =~= data@.skip(pos + 1));
        }
        let mut items: Vec<Value> = Vec::new();
        let mut i = pos + 1;
        loop
            invariant
                pos + 1 <= i <= data.len(),
                pos < data.len(),
                data@.skip(pos as int)[0] == TAG_LIST,
                s == data@.skip(pos as int),
                s.skip(1) =~= data@.skip(pos + 1),
                (dec_vals(data@.skip(pos + 1)) is Some) == (dec_vals(data@.skip(i as int))
                    is Some),
                dec_vals(data@.skip(i as int)) matches Some((l2, n2)) ==> dec_vals(
                    data@.skip(pos + 1),
                ) == Some((items.deep_view() + l2, n2 + i - (pos + 1))),
            decreases data.len() - i,
        {
            let ghost si = data@.skip(i as int);
            if i >= data.len() {
                proof {
                    assert(si.len() == 0);
                }
                return Err(CodecError::CorruptData);
            }
            let b = data[i];
            proof {
                assert(si[0] == b);
            }
            if b == 0 {
                proof {
                    assert(dec_vals(si) == Some((Seq::<ValM>::empty(), 1int)));
                    assert(items.deep_view() + Seq::<ValM>::empty() =~= items.deep_view());
                    assert(Value::List(items)@->List_0 =~= items.deep_view());
                }
                return Ok((Value::List(items), i + 1));
            }
            match decode_value_at(data, i) {
                Ok((v, ni)) => {
                    proof {
                        let l0 = items.deep_view();
                        let n0 = ni - i as int;
                        assert(dec_val(si) == Some((v@, n0)));
                        assert(si.skip(n0) =~= data@.skip(ni as int));
                        if let Some((l3, n3)) = dec_vals(data@.skip(ni as int)) {
                            assert(l0.push(v@) + l3 =~= l0 + (seq![v@] + l3));
                        }
                    }
                    items.push(v);
                    i = ni;
                },
                Err(e) => {
                    proof {
                        assert(dec_val(si) is None);
                        assert(dec_vals(si) is None);
                    }
                    return Err(e);
                },
            }
        }
    } else {
        Err(CodecError::CorruptData)
    }
}

/// Decodes the whole tuple that starts at `pos` and runs to the end of
/// `data`. Malformed bytes fail with `CorruptData`.
pub fn decode_tuple_at(data: &Vec<u8>, pos: usize) -> (r: Result<Vec<Value>, CodecError>)
    requires
        pos <= data.len(),
    ensures
        match r {
            Ok(vs) => dec_tuple(data@.skip(pos as int)) == Some(vs.deep_view()),
            Err(_) => dec_tuple(data@.skip(pos as int)) is None,
        },
{
    let mut out: Vec<Value> = Vec::new();
    let mut i = pos;
    loop
        invariant
            pos <= i <= data.len(),
            (dec_tuple(data@.skip(pos as int)) is Some) == (dec_tuple(data@.skip(i as int))
                is Some),
            dec_tuple(data@.skip(i as int)) matches Some(l2) ==> dec_tuple(data@.skip(pos as int))
                == Some(out.deep_view() + l2),
        decreases data.len() - i,
    {
        let ghost si = data@.skip(i as int);
        if i >= data.len() {
            proof {
                assert(si.len() == 0);
                assert(out.deep_view() + Seq::<ValM>::empty() =~= out.deep_view());
            }
            return Ok(out);
        }
        match decode_value_at(data, i) {
            Ok((v, ni)) => {
                proof {
                    let l0 = out.deep_view();
                    let n0 = ni - i as int;
                    assert(dec_val(si) == Some((v@, n0)));
                    assert(si.len() > 0);
                    assert(si.skip(n0) =~= data@.skip(ni as int));
                    if let Some(l3) = dec_tuple(data@.skip(ni as int)) {
                        assert(l0.push(v@) + l3 =~= l0 + (seq![v@] + l3));
                    }
                }
                out.push(v);
                i = ni;
            },
            Err(e) => {
                proof {
                    assert(dec_val(si) is None);
                    assert(si.len() > 0);
                    assert(dec_tuple(si) is None);
                }
                return Err(e);
            },
        }
    }
}

// ---------------------------------------------------------------------------
// Table-prefixed keys
// ---------------------------------------------------------------------------

proof fn lemma_from_be_bound(s: Seq<u8>)
    ensures
        0 <= from_be(s) < pow256(s.len()),
    decreases s.len(),
{
    if s.len() == 0 {
    } else {
        let n = (s.len() - 1) as nat;
        lemma_from_be_bound(s.skip(1));
        lemma_pow256_pos(n);
        assert((s[0] as int) * pow256(n) + (pow256(n) - 1) < 256 * pow256(n))
            by (nonlinear_arith)
            requires
                s[0] <= 255,
                pow256(n) >= 1,
        ;
        assert((s[0] as int) * pow256(n) >= 0) by (nonlinear_arith)
            requires
                s[0] >= 0,
                pow256(n) >= 1,
        ;
        assert(256 * pow256(n) == pow256(s.len()));
    }
}

/// The four-byte key prefix of a relation: its table id, big-endian, so one
/// relation's key range never crosses another's.
pub open spec fn table_prefix(tid: int) -> Seq<u8> {
    be_bytes(tid, 4)
}

pub proof fn lemma_table_prefix_len(tid: int)
    ensures
        table_prefix(tid).len() == 4,
{
    lemma_be_bytes_len(tid, 4);
}

/// Appends the four big-endian bytes of the table id to `out`.
pub fn push_prefix(tid: u32, out: &mut Vec<u8>)
    ensures
        final(out)@ == old(out)@ + table_prefix(tid as int),
{
    proof {
        lemma_pow256_pos(3);
        lemma_pow256_pos(2);
        vstd::arithmetic::div_mod::lemma_mod_bound(tid as int, pow256(3));
        vstd::arithmetic::div_mod::lemma_mod_bound(tid as int % pow256(3), pow256(2));
        assert(pow256(3) == 0x100_0000 && pow256(2) == 0x1_0000 && pow256(1) == 0x100 && pow256(0)
            == 1) by {
            reveal_with_fuel(pow256, 4);
        }
    }
    let ghost base = out@;
    let k3: u32 = tid;
    out.push((k3 / 0x100_0000) as u8);
    let k2: u32 = k3 % 0x100_0000;
    out.push((k2 / 0x1_0000) as u8);
    let k1: u32 = k2 % 0x1_0000;
    out.push((k1 / 0x100) as u8);
    let k0: u32 = k1 % 0x100;
    out.push(k0 as u8);
    proof {
        reveal_with_fuel(be_bytes, 5);
        assert(out@ =~= base + be_bytes(tid as int, 4));
    }
}

/// The encoded storage key of a row: the table prefix, then the encoded key
/// values.
pub open spec fn spec_key(tid: int, vals: Seq<ValM>) -> Seq<u8> {
    table_prefix(tid) + enc_vals(vals)
}

/// Builds the storage key of a row.
pub fn encode_key(tid: u32, vals: &Vec<Value>) -> (k: Vec<u8>)
    ensures
        k@ == spec_key(tid as int, vals.deep_view()),
{
    let mut k: Vec<u8> = Vec::new();
    push_prefix(tid, &mut k);
    encode_tuple(vals, &mut k);
    proof {
        assert(k@ =~= spec_key(tid as int, vals.deep_view()));
    }
    k
}

/// An encoded tuple as stored: the key bytes of one row. Carried in
/// `KeyConflict` errors so the caller can inspect the conflicting row.
#[derive(Debug)]
pub struct OwnTuple {
    pub data: Vec<u8>,
}

impl OwnTuple {
    /// Reads the table id alone, without materializing the tuple: the cheap
    /// scan-boundary check.
    pub fn get_prefix(&self) -> (r: Option<u32>)
        ensures
            match r {
                Some(tid) => self.data@.len() >= 4 && tid as int == from_be(
                    self.data@.subrange(0, 4),
                ),
                None => self.data@.len() < 4,
            },
    {
        if self.data.len() < 4 {
            return None;
        }
        proof {
            assert(pow256(4) == 0x1_0000_0000 && pow256(0) == 1) by {
                reveal_with_fuel(pow256, 5);
            }
        }
        let mut k: u32 = 0;
        let mut j: usize = 0;
        while j < 4
            invariant
                0 <= j <= 4,
                self.data@.len() >= 4,
                k == from_be(self.data@.subrange(0, j as int)),
                0 <= k < pow256(j as nat),
                pow256(4) == 0x1_0000_0000,
            decreases 4 - j,
        {
            let ghost pre = self.data@.subrange(0, j as int);
            let b = self.data[j];
            proof {
                lemma_pow256_mono((j + 1) as nat, 4);
                lemma_pow256_pos(j as nat);
                assert(pow256((j + 1) as nat) == 256 * pow256(j as nat));
                lemma_from_be_snoc(pre, b);
                assert(self.data@.subrange(0, j + 1) =~= pre.push(b));
            }
            k = k * 256 + (b as u32);
            j = j + 1;
        }
        Some(k)
    }

    /// Decodes the typed key values behind the table prefix.
    pub fn decode_values(&self) -> (r: Result<Vec<Value>, CodecError>)
        ensures
            match r {
                Ok(vs) => self.data@.len() >= 4 && dec_tuple(self.data@.skip(4)) == Some(
                    vs.deep_view(),
                ),
                Err(_) => self.data@.len() < 4 || dec_tuple(self.data@.skip(4)) is None,
            },
    {
        if self.data.len() < 4 {
            return Err(CodecError::CorruptData);
        }
        decode_tuple_at(&self.data, 4)
    }
}

/// Every view of an executable value is well formed.
pub proof fn lemma_value_wf(v: Value)
    ensures
        wf_val(v@),
    decreases v,
{
    match v {
        Value::List(l) => {
            let lm = v@->List_0;
            assert forall|i: int| 0 <= i < lm.len() implies wf_val(#[trigger] lm[i]) by {
                assert(decreases_to!(v => l));
                assert(decreases_to!(l => l[i]));
                lemma_value_wf(l[i]);
            }
        },
        _ => {},
    }
}

/// Every view of an executable tuple is well formed.
pub proof fn lemma_tuple_wf(vals: Vec<Value>)
    ensures
        wf_vals(vals.deep_view()),
{
    let vm = vals.deep_view();
    assert forall|i: int| 0 <= i < vm.len() implies wf_val(#[trigger] vm[i]) by {
        lemma_value_wf(vals[i]);
    }
}

// ---------------------------------------------------------------------------
// Executable encoder
// ---------------------------------------------------------------------------

/// The 64-bit order key of an integer: the value shifted into the
/// nonnegative range, so that unsigned comparison agrees with signed.
pub fn int_order_key(x: i64) -> (k: u64)
    ensures
        k == x + INT_OFFSET,
{
    if x >= 0 {
        (x as u64) + INT_OFFSET
    } else {
        (x - i64::MIN) as u64
    }
}

/// Appends the eight big-endian bytes of `k` to `out`.
fn push_be8(k: u64, out: &mut Vec<u8>)
    ensures
        final(out)@ == old(out)@ + be_bytes(k as int, 8),
{
    proof {
        lemma_pow256_pos(7);
        lemma_pow256_pos(6);
        vstd::arithmetic::div_mod::lemma_mod_bound(k as int, pow256(7));
        vstd::arithmetic::div_mod::lemma_mod_bound(k as int % pow256(7), pow256(6));
    }
    let ghost base = out@;
    let c7: u64 = 0x100_0000_0000_0000;
    let c6: u64 = 0x1_0000_0000_0000;
    let c5: u64 = 0x100_0000_0000;
    let c4: u64 = 0x1_0000_0000;
    let c3: u64 = 0x100_0000;
    let c2: u64 = 0x1_0000;
    let c1: u64 = 0x100;
    proof {
        assert(pow256(7) == 0x100_0000_0000_0000 && pow256(6) == 0x1_0000_0000_0000 && pow256(5)
            == 0x100_0000_0000 && pow256(4) == 0x1_0000_0000 && pow256(3) == 0x100_0000 && pow256(2)
            == 0x1_0000 && pow256(1) == 0x100 && pow256(0) == 1) by {
            reveal_with_fuel(pow256, 8);
        }
    }
    out.push((k / c7) as u8);
    let k6: u64 = k % c7;
    out.push((k6 / c6) as u8);
    let k5: u64 = k6 % c6;
    out.push((k5 / c5) as u8);
    let k4: u64 = k5 % c5;
    out.push((k4 / c4) as u8);
    let k3: u64 = k4 % c4;
    out.push((k3 / c3) as u8);
    let k2: u64 = k3 % c3;
    out.push((k2 / c2) as u8);
    let k1: u64 = k2 % c2;
    out.push((k1 / c1) as u8);
    let k0: u64 = k1 % c1;
    out.push(k0 as u8);
    proof {
        reveal_with_fuel(be_bytes, 9);
        assert(out@ =~= base + be_bytes(k as int, 8));
    }
}

/// Appends the escaped form of `data` and the zero terminator to `out`.
fn push_escaped(data: &Vec<u8>, out: &mut Vec<u8>)
    ensures
        final(out)@ == old(out)@ + esc(data@) + seq![0u8],
{
    let ghost base = out@;
    let n = data.len();
    for i in 0..n
        invariant
            n == data.len(),
            out@ == base + esc(data@.take(i as int)),
    {
        proof {
            lemma_esc_snoc(data@.take(i as int), data@[i as int]);
            assert(data@.take(i + 1) =~= data@.take(i as int).push(data@[i as int]));
        }
        let b = data[i];
        if b == 0 {
            out.push(0);
            out.push(255);
            proof {
                assert(out@ =~= base + esc(data@.take(i + 1)));
            }
        } else {
            out.push(b);
            proof {
                assert(out@ =~= base + esc(data@.take(i + 1)));
            }
        }
    }
    proof {
        assert(data@.take(n as int) =~= data@);
    }
    out.push(0);
    proof {
        assert(out@ =~= base + esc(data@) + seq![0u8]);
    }
}

/// Appends the encoding of one value to `out`.
pub fn encode_value(v: &Value, out: &mut Vec<u8>)
    ensures
        final(out)@ == old(out)@ + enc_val(v@),
    decreases v,
{
    let ghost base = out@;
    match v {
        Value::Bool(b) => {
            out.push(TAG_BOOL);
            out.push(if *b {
                1
            } else {
                0
            });
            proof {
                assert(out@ =~= base + enc_val(v@));
            }
        },
        Value::Int(i) => {
            out.push(TAG_INT);
            let k = int_order_key(*i);
            push_be8(k, out);
            proof {
                assert(out@ =~= base + enc_val(v@));
            }
        },
        Value::Text(t) => {
            out.push(TAG_TEXT);
            push_escaped(t, out);
            proof {
                assert(out@ =~= base + enc_val(v@));
            }
        },
        Value::Blob(t) => {
            out.push(TAG_BLOB);
            push_escaped(t, out);
            proof {
                assert(out@ =~= base + enc_val(v@));
            }
        },
        Value::List(l) => {
            out.push(TAG_LIST);
            proof {
                assert(v@->List_0 =~= l.deep_view());
                assert(decreases_to!(*v => *l));
            }
            encode_tuple(l, out);
            out.push(0);
            proof {
                assert(out@ =~= base + enc_val(v@));
            }
        },
    }
}

/// Appends the encoding of a tuple to `out`.
pub fn encode_tuple(vals: &Vec<Value>, out: &mut Vec<u8>)
    ensures
        final(out)@ == old(out)@ + enc_vals(vals.deep_view()),
    decreases *vals,
{
    let ghost base = out@;
    let ghost vm = vals.deep_view();
    let n = vals.len();
    for i in 0..n
        invariant
            n == vals.len(),
            vm == vals.deep_view(),
            out@ == base + enc_vals(vm.take(i as int)),
    {
        proof {
            lemma_enc_vals_snoc(vm.take(i as int), vm[i as int]);
            assert(vm.take(i + 1) =~= vm.take(i as int).push(vm[i as int]));
            assert(decreases_to!(*vals => vals[i as int]));
        }
        encode_value(&vals[i], out);
        proof {
            assert(out@ =~= base + enc_vals(vm.take(i + 1)));
        }
    }
    proof {
        assert(vm.take(n as int) =~= vm);
    }
}

} // verus!
