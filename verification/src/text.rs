//! Text helpers: joining names into a message and comparing names.
use vstd::prelude::*;
use vstd::string::StringExecFns;
use vstd::string::StringSliceAdditionalSpecFns;

verus! {

/// The parts one after another, with `separator` between neighbours.
pub open spec fn joined(parts: Seq<Seq<char>>, separator: Seq<char>) -> Seq<char>
    decreases parts.len(),
{
    if parts.len() == 0 {
        Seq::empty()
    } else if parts.len() == 1 {
        parts[0]
    } else {
        joined(parts.drop_last(), separator) + separator + parts.last()
    }
}

/// What each name reads as.
pub open spec fn views(names: Seq<&'static str>) -> Seq<Seq<char>> {
    Seq::new(names.len(), |i: int| names[i]@)
}

/// Joins `names` into one string, with `separator` between neighbours.
pub fn join(names: &Vec<&'static str>, separator: &str) -> (text: String)
    ensures
        text@ == joined(views(names@), separator@),
{
    let mut text = String::new();
    let mut at: usize = 0;
    let ghost parts = views(names@);
    while at < names.len()
        invariant
            at <= names.len(),
            parts == views(names@),
            text@ == joined(parts.take(at as int), separator@),
        decreases names.len() - at,
    {
        assert(parts.take(at + 1).drop_last() == parts.take(at as int));
        if at > 0 {
            text.append(separator);
        }
        text.append(names[at]);
        at = at + 1;
    }
    assert(parts.take(at as int) == parts);
    text
}

/// Whether byte string `a` comes before `b`, or is equal to it, in
/// lexicographic order.
pub open spec fn bytes_le(a: Seq<u8>, b: Seq<u8>) -> bool
    decreases a.len(),
{
    if a.len() == 0 {
        true
    } else if b.len() == 0 {
        false
    } else if a[0] != b[0] {
        a[0] < b[0]
    } else {
        bytes_le(a.drop_first(), b.drop_first())
    }
}

/// Whether name `a` comes before `b`, or is equal to it, by the bytes of their
/// UTF-8 form.
pub open spec fn name_le(a: &str, b: &str) -> bool {
    bytes_le(a.spec_bytes(), b.spec_bytes())
}

/// Every byte string is at most itself.
pub proof fn lemma_bytes_le_reflexive(a: Seq<u8>)
    ensures
        bytes_le(a, a),
    decreases a.len(),
{
    if a.len() > 0 {
        lemma_bytes_le_reflexive(a.drop_first());
    }
}

/// Of two byte strings one is at most the other.
pub proof fn lemma_bytes_le_total(a: Seq<u8>, b: Seq<u8>)
    ensures
        bytes_le(a, b) || bytes_le(b, a),
    decreases a.len(),
{
    if a.len() > 0 && b.len() > 0 {
        lemma_bytes_le_total(a.drop_first(), b.drop_first());
    }
}

/// The order of byte strings is transitive.
pub proof fn lemma_bytes_le_transitive(a: Seq<u8>, b: Seq<u8>, c: Seq<u8>)
    requires
        bytes_le(a, b),
        bytes_le(b, c),
    ensures
        bytes_le(a, c),
    decreases a.len(),
{
    if a.len() > 0 && b.len() > 0 && c.len() > 0 && a[0] == b[0] && b[0] == c[0] {
        lemma_bytes_le_transitive(a.drop_first(), b.drop_first(), c.drop_first());
    }
}

/// Two byte strings that are each at most the other are equal.
pub proof fn lemma_bytes_le_antisymmetric(a: Seq<u8>, b: Seq<u8>)
    requires
        bytes_le(a, b),
        bytes_le(b, a),
    ensures
        a == b,
    decreases a.len(),
{
    if a.len() > 0 && b.len() > 0 {
        lemma_bytes_le_antisymmetric(a.drop_first(), b.drop_first());
        assert(a == seq![a[0]] + a.drop_first());
        assert(b == seq![b[0]] + b.drop_first());
    } else {
        assert(a == b);
    }
}

/// Compares two names by the bytes of their UTF-8 form.
pub fn at_most(a: &str, b: &str) -> (r: bool)
    ensures
        r == name_le(a, b),
{
    let left = a.as_bytes();
    let right = b.as_bytes();
    let mut at: usize = 0;
    assert(left@.skip(0) == left@ && right@.skip(0) == right@);
    while at < left.len() && at < right.len()
        invariant
            at <= left.len(),
            at <= right.len(),
            left@ == a.spec_bytes(),
            right@ == b.spec_bytes(),
            name_le(a, b) == bytes_le(left@.skip(at as int), right@.skip(at as int)),
        decreases left.len() - at,
    {
        assert(left@.skip(at as int).drop_first() == left@.skip(at + 1));
        assert(right@.skip(at as int).drop_first() == right@.skip(at + 1));
        if left[at] != right[at] {
            return left[at] < right[at];
        }
        at = at + 1;
    }
    at == left.len()
}

/// Whether two names read the same.
pub fn same_text(a: &str, b: &str) -> (r: bool)
    ensures
        r == (a@ == b@),
{
    let r = at_most(a, b) && at_most(b, a);
    proof {
        if r {
            lemma_bytes_le_antisymmetric(a.spec_bytes(), b.spec_bytes());
            vstd::utf8::encode_utf8_decode_utf8(a@);
            vstd::utf8::encode_utf8_decode_utf8(b@);
        } else if a@ == b@ {
            lemma_bytes_le_reflexive(a.spec_bytes());
        }
    }
    r
}

/// The order of byte strings is that of dictionaries: one comes first where it is
/// the beginning of the other, or has the smaller byte where the two first differ.
pub proof fn bytes_stand_as_in_a_dictionary(a: Seq<u8>, b: Seq<u8>)
    ensures
        bytes_le(a, b) <==> ((a.len() <= b.len() && a == b.take(a.len() as int)) || exists|k: int|
            0 <= k < a.len() && k < b.len() && a.take(k) == #[trigger] b.take(k) && a[k] < b[k]),
    decreases a.len(),
{
    if a.len() == 0 {
        assert(a == b.take(0));
    } else if b.len() > 0 {
        let x = a.drop_first();
        let y = b.drop_first();
        bytes_stand_as_in_a_dictionary(x, y);
        assert(a =~= seq![a[0]] + x);
        assert(b =~= seq![b[0]] + y);
        if a[0] == b[0] {
            if x.len() <= y.len() && x == y.take(x.len() as int) {
                assert(a =~= b.take(a.len() as int));
            }
            if a.len() <= b.len() && a == b.take(a.len() as int) {
                assert(x =~= y.take(x.len() as int)) by {
                    assert forall|i: int| 0 <= i < x.len() implies x[i] == y.take(
                        x.len() as int,
                    )[i] by {
                        assert(a[i + 1] == b.take(a.len() as int)[i + 1]);
                    }
                }
            }
            if exists|k: int|
                0 <= k < x.len() && k < y.len() && x.take(k) == #[trigger] y.take(k) && x[k]
                    < y[k] {
                let k = choose|k: int|
                    0 <= k < x.len() && k < y.len() && x.take(k) == #[trigger] y.take(k) && x[k]
                        < y[k];
                assert(a.take(k + 1) =~= b.take(k + 1)) by {
                    assert forall|i: int| 0 <= i < k + 1 implies a[i] == b[i] by {
                        if i > 0 {
                            assert(x.take(k)[i - 1] == y.take(k)[i - 1]);
                        }
                    }
                }
                assert(a[k + 1] < b[k + 1]);
            }
            if exists|k: int|
                0 <= k < a.len() && k < b.len() && a.take(k) == #[trigger] b.take(k) && a[k]
                    < b[k] {
                let k = choose|k: int|
                    0 <= k < a.len() && k < b.len() && a.take(k) == #[trigger] b.take(k) && a[k]
                        < b[k];
                assert(x.take(k - 1) =~= y.take(k - 1)) by {
                    assert forall|i: int| 0 <= i < k - 1 implies x[i] == y[i] by {
                        assert(a.take(k)[i + 1] == b.take(k)[i + 1]);
                    }
                }
                assert(x[k - 1] < y[k - 1]);
            }
        } else {
            if a[0] < b[0] {
                assert(a.take(0) =~= b.take(0));
            } else {
                if a.len() <= b.len() && a == b.take(a.len() as int) {
                    assert(b.take(a.len() as int)[0] == b[0]);
                }
                assert forall|k: int|
                    0 <= k < a.len() && k < b.len() && a.take(k) == #[trigger] b.take(
                        k,
                    ) implies !(a[k] < b[k]) by {
                    if k > 0 {
                        assert(a.take(k)[0] == b.take(k)[0]);
                    }
                }
            }
        }
    }
}

/// Joining two lists is joining their joinings: the parts stand in order, each
/// whole, with one separator between neighbours and none at the ends.
pub proof fn joining_goes_part_by_part(
    a: Seq<Seq<char>>,
    b: Seq<Seq<char>>,
    part: Seq<char>,
    separator: Seq<char>,
)
    ensures
        joined(Seq::<Seq<char>>::empty(), separator) == Seq::<char>::empty(),
        joined(seq![part], separator) == part,
        a.len() > 0 && b.len() > 0 ==> joined(a + b, separator) == joined(a, separator) + separator
            + joined(b, separator),
    decreases b.len(),
{
    if a.len() > 0 && b.len() > 0 {
        let whole = a + b;
        assert(whole.drop_last() =~= a + b.drop_last());
        assert(whole.last() == b.last());
        if b.len() == 1 {
            assert(a + b.drop_last() =~= a);
            assert(b.last() == b[0]);
        } else {
            joining_goes_part_by_part(a, b.drop_last(), part, separator);
            assert(joined(whole, separator) =~= joined(a, separator) + separator + joined(
                b,
                separator,
            ));
        }
    }
}

/// Names stand by the bytes of their UTF-8 form, as in a dictionary.
pub proof fn names_stand_as_in_a_dictionary(a: &str, b: &str)
    ensures
        name_le(a, b) <==> ((a.spec_bytes().len() <= b.spec_bytes().len() && a.spec_bytes()
            == b.spec_bytes().take(a.spec_bytes().len() as int)) || exists|k: int|
            0 <= k < a.spec_bytes().len() && k < b.spec_bytes().len() && a.spec_bytes().take(k)
                == #[trigger] b.spec_bytes().take(k) && a.spec_bytes()[k] < b.spec_bytes()[k]),
{
    bytes_stand_as_in_a_dictionary(a.spec_bytes(), b.spec_bytes());
}

} // verus!
