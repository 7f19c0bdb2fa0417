//! Big-endian byte strings: the order and the encoding of every key in the evidence store.

use vstd::prelude::*;

verus! {

/// The `width` low-order base-256 digits of `value`, most significant first.
pub open spec fn be(value: nat, width: nat) -> Seq<u8>
    decreases width,
{
    if width == 0 {
        Seq::empty()
    } else {
        be(value / 256, (width - 1) as nat).push((value % 256) as u8)
    }
}

/// The number that a byte string spells, most significant byte first.
pub open spec fn be_value(bytes: Seq<u8>) -> nat
    decreases bytes.len(),
{
    if bytes.len() == 0 {
        0
    } else {
        be_value(bytes.drop_last()) * 256 + bytes.last() as nat
    }
}

/// `256` to the power `width`: how many numbers `width` bytes can spell.
pub open spec fn span(width: nat) -> nat
    decreases width,
{
    if width == 0 {
        1
    } else {
        256 * span((width - 1) as nat)
    }
}

/// The two byte strings agree before position `at`, and there the first one ends or is smaller.
pub open spec fn differ_at(a: Seq<u8>, b: Seq<u8>, at: int) -> bool {
    &&& 0 <= at <= a.len()
    &&& at < b.len()
    &&& forall|j: int| 0 <= j < at ==> a[j] == b[j]
    &&& at == a.len() || a[at] < b[at]
}

/// Dictionary order on byte strings, the order in which the store lists its keys.
pub open spec fn before(a: Seq<u8>, b: Seq<u8>) -> bool {
    exists|at: int| differ_at(a, b, at)
}

/// `a` comes before `b` or is `b`.
pub open spec fn not_after(a: Seq<u8>, b: Seq<u8>) -> bool {
    a == b || before(a, b)
}

/// `bytes` begins with `prefix`.
pub open spec fn starts_with(bytes: Seq<u8>, prefix: Seq<u8>) -> bool {
    prefix.len() <= bytes.len() && bytes.take(prefix.len() as int) == prefix
}

pub proof fn lemma_be_len(value: nat, width: nat)
    ensures
        be(value, width).len() == width,
    decreases width,
{
    if width > 0 {
        lemma_be_len(value / 256, (width - 1) as nat);
    }
}

/// Decoding undoes encoding for every value that fits.
pub proof fn lemma_be_value(value: nat, width: nat)
    requires
        value < span(width),
    ensures
        be_value(be(value, width)) == value,
    decreases width,
{
    if width > 0 {
        lemma_be_len(value, width);
        lemma_be_value(value / 256, (width - 1) as nat);
        assert(be(value, width).drop_last() =~= be(value / 256, (width - 1) as nat));
    }
}

/// Encoding undoes decoding, and what a byte string spells fits its length.
pub proof fn lemma_value_be(bytes: Seq<u8>)
    ensures
        be(be_value(bytes), bytes.len()) == bytes,
        be_value(bytes) < span(bytes.len()),
    decreases bytes.len(),
{
    if bytes.len() > 0 {
        lemma_value_be(bytes.drop_last());
        let head = be_value(bytes.drop_last());
        assert((head * 256 + bytes.last() as nat) / 256 == head);
        assert((head * 256 + bytes.last() as nat) % 256 == bytes.last() as nat);
        assert(bytes =~= bytes.drop_last().push(bytes.last()));
    }
}

/// Distinct values that fit have distinct encodings.
pub proof fn lemma_be_injective(a: nat, b: nat, width: nat)
    requires
        a < span(width),
        b < span(width),
        be(a, width) == be(b, width),
    ensures
        a == b,
{
    lemma_be_value(a, width);
    lemma_be_value(b, width);
}

/// Dictionary order on encodings of one width is numeric order.
pub proof fn lemma_be_order(a: nat, b: nat, width: nat)
    requires
        a < span(width),
        b < span(width),
    ensures
        before(be(a, width), be(b, width)) <==> a < b,
    decreases width,
{
    lemma_be_len(a, width);
    lemma_be_len(b, width);
    if width > 0 {
        let w = (width - 1) as nat;
        let (ha, hb) = (be(a / 256, w), be(b / 256, w));
        lemma_be_len(a / 256, w);
        lemma_be_len(b / 256, w);
        lemma_be_order(a / 256, b / 256, w);
        if a / 256 < b / 256 {
            let at = choose|at: int| differ_at(ha, hb, at);
            assert(differ_at(be(a, width), be(b, width), at));
        } else if a / 256 == b / 256 {
            if a < b {
                assert(differ_at(be(a, width), be(b, width), w as int));
            }
            if before(be(a, width), be(b, width)) {
                let at = choose|at: int| differ_at(be(a, width), be(b, width), at);
                assert(at == w);
            }
        } else {
            lemma_be_order(b / 256, a / 256, w);
            let at = choose|at: int| differ_at(hb, ha, at);
            assert(differ_at(be(b, width), be(a, width), at));
            lemma_before_asymmetric(be(b, width), be(a, width));
        }
    }
}

pub proof fn lemma_before_irreflexive(a: Seq<u8>)
    ensures
        !before(a, a),
{
}

pub proof fn lemma_before_asymmetric(a: Seq<u8>, b: Seq<u8>)
    requires
        before(a, b),
    ensures
        !before(b, a),
        a != b,
{
    let at = choose|at: int| differ_at(a, b, at);
    if before(b, a) {
        let back = choose|back: int| differ_at(b, a, back);
        assert(false);
    }
}

pub proof fn lemma_before_transitive(a: Seq<u8>, b: Seq<u8>, c: Seq<u8>)
    requires
        before(a, b),
        before(b, c),
    ensures
        before(a, c),
{
    let i = choose|i: int| differ_at(a, b, i);
    let k = choose|k: int| differ_at(b, c, k);
    if i <= k {
        assert(differ_at(a, c, i));
    } else {
        assert(differ_at(a, c, k));
    }
}

/// Any two byte strings are equal or one comes before the other.
pub proof fn lemma_before_total(a: Seq<u8>, b: Seq<u8>)
    ensures
        a == b || before(a, b) || before(b, a),
{
    lemma_before_total_from(a, b, 0);
}

proof fn lemma_before_total_from(a: Seq<u8>, b: Seq<u8>, at: int)
    requires
        0 <= at <= a.len(),
        at <= b.len(),
        forall|j: int| 0 <= j < at ==> a[j] == b[j],
    ensures
        a == b || before(a, b) || before(b, a),
    decreases a.len() - at,
{
    if at == a.len() {
        if at == b.len() {
            assert(a =~= b);
        } else {
            assert(differ_at(a, b, at));
        }
    } else if at == b.len() {
        assert(differ_at(b, a, at));
    } else if a[at] < b[at] {
        assert(differ_at(a, b, at));
    } else if b[at] < a[at] {
        assert(differ_at(b, a, at));
    } else {
        lemma_before_total_from(a, b, at + 1);
    }
}

/// A common beginning does not change the order.
pub proof fn lemma_before_after_common(p: Seq<u8>, a: Seq<u8>, b: Seq<u8>)
    ensures
        before(p + a, p + b) <==> before(a, b),
{
    if before(a, b) {
        let at = choose|at: int| differ_at(a, b, at);
        assert(differ_at(p + a, p + b, p.len() + at));
    }
    if before(p + a, p + b) {
        let at = choose|at: int| differ_at(p + a, p + b, at);
        assert(at >= p.len());
        assert forall|j: int| 0 <= j < at - p.len() implies a[j] == b[j] by {
            assert((p + a)[p.len() + j] == (p + b)[p.len() + j]);
        }
        assert(differ_at(a, b, at - p.len()));
    }
}

/// Beginnings of one length that differ decide the order.
pub proof fn lemma_before_by_head(p: Seq<u8>, q: Seq<u8>, a: Seq<u8>, b: Seq<u8>)
    requires
        p.len() == q.len(),
        before(p, q),
    ensures
        before(p + a, q + b),
{
    let at = choose|at: int| differ_at(p, q, at);
    assert(differ_at(p + a, q + b, at));
}

/// What lies between two strings with a common prefix has that prefix.
pub proof fn lemma_prefix_between(prefix: Seq<u8>, a: Seq<u8>, b: Seq<u8>, c: Seq<u8>)
    requires
        starts_with(a, prefix) || a == prefix,
        not_after(a, b),
        not_after(b, c),
        starts_with(c, prefix),
    ensures
        starts_with(b, prefix),
{
    assert forall|j: int| 0 <= j < prefix.len() implies c[j] == prefix[j] by {
        assert(c.take(prefix.len() as int)[j] == c[j]);
    }
    assert forall|j: int| 0 <= j < prefix.len() implies a[j] == prefix[j] by {
        if a != prefix {
            assert(a.take(prefix.len() as int)[j] == a[j]);
        }
    }
    if a != b && b != c {
        let i = choose|i: int| differ_at(a, b, i);
        let k = choose|k: int| differ_at(b, c, k);
        if i < prefix.len() {
            if k < i {
                assert(c[k] == a[k]);
                assert(false);
            } else if k == i {
                assert(false);
            } else {
                assert(b[i] == c[i]);
                assert(false);
            }
        }
        assert(b.len() >= prefix.len());
        assert(b.take(prefix.len() as int) =~= prefix);
    }
    assert(prefix.take(prefix.len() as int) =~= prefix);
}

/// How two byte strings compare in dictionary order.
#[derive(Clone, Copy, Debug, PartialEq, Eq, Structural)]
pub enum Order {
    Before,
    Same,
    After,
}

/// Compares two byte strings in dictionary order.
pub fn order(a: &[u8], b: &[u8]) -> (r: Order)
    ensures
        r == Order::Before <==> before(a@, b@),
        r == Order::Same <==> a@ == b@,
        r == Order::After <==> before(b@, a@),
{
    let mut i: usize = 0;
    while i < a.len() && i < b.len() && a[i] == b[i]
        invariant
            i <= a@.len(),
            i <= b@.len(),
            forall|j: int| 0 <= j < i ==> a@[j] == b@[j],
        decreases a@.len() - i,
    {
        i += 1;
    }
    proof {
        lemma_before_irreflexive(a@);
    }
    if i == a.len() {
        if i == b.len() {
            assert(a@ =~= b@);
            Order::Same
        } else {
            proof {
                assert(differ_at(a@, b@, i as int));
                lemma_before_asymmetric(a@, b@);
            }
            Order::Before
        }
    } else if i == b.len() {
        proof {
            assert(differ_at(b@, a@, i as int));
            lemma_before_asymmetric(b@, a@);
        }
        Order::After
    } else if a[i] < b[i] {
        proof {
            assert(differ_at(a@, b@, i as int));
            lemma_before_asymmetric(a@, b@);
        }
        Order::Before
    } else {
        proof {
            assert(differ_at(b@, a@, i as int));
            lemma_before_asymmetric(b@, a@);
        }
        Order::After
    }
}

/// Whether `bytes` begins with `prefix`.
pub fn has_prefix(bytes: &[u8], prefix: &[u8]) -> (r: bool)
    ensures
        r == starts_with(bytes@, prefix@),
{
    if bytes.len() < prefix.len() {
        return false;
    }
    let mut i: usize = 0;
    while i < prefix.len()
        invariant
            i <= prefix@.len() <= bytes@.len(),
            forall|j: int| 0 <= j < i ==> bytes@[j] == prefix@[j],
        decreases prefix@.len() - i,
    {
        if bytes[i] != prefix[i] {
            assert(bytes@.take(prefix@.len() as int)[i as int] != prefix@[i as int]);
            return false;
        }
        i += 1;
    }
    assert(bytes@.take(prefix@.len() as int) =~= prefix@);
    true
}

/// Appends the `width` low-order bytes of `value`, most significant first.
pub fn push_be(out: &mut Vec<u8>, value: u128, width: usize)
    ensures
        final(out)@ == old(out)@ + be(value as nat, width as nat),
    decreases width,
{
    if width > 0 {
        push_be(out, value / 256, width - 1);
        out.push((value % 256) as u8);
    }
    assert(out@ =~= old(out)@ + be(value as nat, width as nat));
}

/// The number that `bytes[from..from + width]` spells.
pub fn read_be(bytes: &[u8], from: usize, width: usize) -> (r: u128)
    requires
        width <= 16,
        from + width <= bytes@.len(),
    ensures
        r == be_value(bytes@.subrange(from as int, from + width)),
        r < span(width as nat),
{
    let total: usize = bytes.len();
    let mut value: u128 = 0;
    let mut i: usize = 0;
    proof {
        lemma_span16();
    }
    while i < width
        invariant
            i <= width <= 16,
            from + width <= bytes@.len() == total,
            value == be_value(bytes@.subrange(from as int, from + i)),
            value < span(i as nat),
            span(16) == 0x1_0000_0000_0000_0000_0000_0000_0000_0000,
        decreases width - i,
    {
        proof {
            let next = bytes@.subrange(from as int, from + i + 1);
            assert(next.drop_last() =~= bytes@.subrange(from as int, from + i));
            lemma_value_be(next);
            lemma_span_monotone((i + 1) as nat, 16);
        }
        value = value * 256 + bytes[from + i] as u128;
        i += 1;
    }
    value
}

/// The largest number of a width is spelled with the largest byte throughout.
pub proof fn lemma_be_ones(width: nat)
    ensures
        be((span(width) - 1) as nat, width) == Seq::new(width, |i: int| 0xffu8),
        span(width) > 0,
    decreases width,
{
    if width > 0 {
        let rest = (width - 1) as nat;
        lemma_be_ones(rest);
        assert((256 * span(rest) - 1) / 256 == span(rest) - 1);
        assert((256 * span(rest) - 1) % 256 == 255);
    }
    assert(be((span(width) - 1) as nat, width) =~= Seq::new(width, |i: int| 0xffu8));
}

pub proof fn lemma_span_monotone(a: nat, b: nat)
    requires
        a <= b,
    ensures
        span(a) <= span(b),
        span(a) > 0,
    decreases b,
{
    if a < b {
        lemma_span_monotone(a, (b - 1) as nat);
    } else if a > 0 {
        lemma_span_monotone((a - 1) as nat, (b - 1) as nat);
    }
}

/// The spans of the integer widths in use.
pub proof fn lemma_span16()
    ensures
        span(1) == 0x100,
        span(4) == 0x1_0000_0000,
        span(8) == 0x1_0000_0000_0000_0000,
        span(16) == 0x1_0000_0000_0000_0000_0000_0000_0000_0000,
{
    reveal_with_fuel(span, 17);
}

} // verus!
