use vstd::prelude::*;
use vstd::string::StringSliceAdditionalSpecFns;

verus! {

/// A recognized property name of the clipmap configuration.
#[derive(Clone, Copy, Debug, PartialEq, Eq, Structural)]
pub enum PropKey {
    /// `clipmap/number_of_lods`
    Count,
    /// `clipmap/lod_<index>/size`
    Size(usize),
    /// `clipmap/lod_<index>/subdivisions`
    Subdivisions(usize),
}

/// The bytes of `"clipmap/number_of_lods"`.
pub open spec fn count_name() -> Seq<u8> {
    seq![
        99u8, 108u8, 105u8, 112u8, 109u8, 97u8, 112u8, 47u8, 110u8, 117u8, 109u8, 98u8, 101u8, 114u8, 95u8,
        111u8, 102u8, 95u8, 108u8, 111u8, 100u8, 115u8,
    ]
}

/// The bytes of `"clipmap/lod_"`.
pub open spec fn lod_prefix() -> Seq<u8> {
    seq![99u8, 108u8, 105u8, 112u8, 109u8, 97u8, 112u8, 47u8, 108u8, 111u8, 100u8, 95u8]
}

/// The bytes of `"/size"`.
pub open spec fn size_suffix() -> Seq<u8> {
    seq![47u8, 115u8, 105u8, 122u8, 101u8]
}

/// The bytes of `"/subdivisions"`.
pub open spec fn subdivisions_suffix() -> Seq<u8> {
    seq![47u8, 115u8, 117u8, 98u8, 100u8, 105u8, 118u8, 105u8, 115u8, 105u8, 111u8, 110u8, 115u8]
}

pub open spec fn is_digit(b: u8) -> bool {
    48u8 <= b <= 57u8
}

/// Every byte is a decimal digit, and there is at least one.
pub open spec fn is_digits(s: Seq<u8>) -> bool {
    s.len() >= 1 && forall|t: int| 0 <= t < s.len() ==> is_digit(#[trigger] s[t])
}

/// The value of a digit string, most significant digit first.
pub open spec fn digits_val(s: Seq<u8>) -> int
    decreases s.len(),
{
    if s.len() == 0 {
        0
    } else {
        digits_val(s.drop_last()) * 10 + (s.last() - 48u8)
    }
}

/// An unsigned decimal number as `usize::from_str` accepts it: an optional
/// leading `+`, then at least one digit, with a value that fits in `usize`.
pub open spec fn parses_to(s: Seq<u8>, v: int) -> bool {
    let digits = if s.len() >= 1 && s[0] == 43u8 {
        s.skip(1)
    } else {
        s
    };
    &&& is_digits(digits)
    &&& digits_val(digits) == v
    &&& 0 <= v <= usize::MAX
}

/// What a property name means: the exact name `clipmap/number_of_lods`, or
/// `clipmap/lod_<index>/size` / `clipmap/lod_<index>/subdivisions` with
/// `<index>` an unsigned decimal that fits in `usize`; anything else is
/// unrecognized.
pub open spec fn spec_parse_property(s: Seq<u8>) -> Option<PropKey> {
    if s == count_name() {
        Some(PropKey::Count)
    } else if s.len() >= lod_prefix().len() + size_suffix().len() && s.take(lod_prefix().len() as int)
        == lod_prefix() && s.skip(s.len() - size_suffix().len()) == size_suffix() && (exists|v: int|
        #[trigger] parses_to(s.subrange(lod_prefix().len() as int, s.len() - size_suffix().len()), v)) {
        Some(
            PropKey::Size(
                (choose|v: int|
                    #[trigger] parses_to(
                        s.subrange(lod_prefix().len() as int, s.len() - size_suffix().len()),
                        v,
                    )) as usize,
            ),
        )
    } else if s.len() >= lod_prefix().len() + subdivisions_suffix().len() && s.take(
        lod_prefix().len() as int,
    ) == lod_prefix() && s.skip(s.len() - subdivisions_suffix().len()) == subdivisions_suffix() && (
    exists|v: int|
        #[trigger] parses_to(
            s.subrange(lod_prefix().len() as int, s.len() - subdivisions_suffix().len()),
            v,
        )) {
        Some(
            PropKey::Subdivisions(
                (choose|v: int|
                    #[trigger] parses_to(
                        s.subrange(
                            lod_prefix().len() as int,
                            s.len() - subdivisions_suffix().len(),
                        ),
                        v,
                    )) as usize,
            ),
        )
    } else {
        None
    }
}

/// A digit string's value only grows as digits are appended.
proof fn lemma_digits_val_grows(s: Seq<u8>, i: int)
    requires
        0 <= i <= s.len(),
        forall|t: int| 0 <= t < s.len() ==> is_digit(#[trigger] s[t]),
    ensures
        0 <= digits_val(s.take(i)) <= digits_val(s),
    decreases s.len() - i,
{
    if i == s.len() {
        assert(s.take(i) =~= s);
        lemma_digits_val_nonneg(s);
    } else {
        lemma_digits_val_grows(s, i + 1);
        let t1 = s.take(i + 1);
        assert(t1.drop_last() =~= s.take(i));
        assert(digits_val(t1) == digits_val(s.take(i)) * 10 + (s[i] - 48u8));
        lemma_digits_val_nonneg(s.take(i));
        assert(digits_val(s.take(i)) * 10 >= digits_val(s.take(i))) by (nonlinear_arith)
            requires
                digits_val(s.take(i)) >= 0,
        ;
    }
}

proof fn lemma_digits_val_nonneg(s: Seq<u8>)
    requires
        forall|t: int| 0 <= t < s.len() ==> is_digit(#[trigger] s[t]),
    ensures
        digits_val(s) >= 0,
    decreases s.len(),
{
    if s.len() > 0 {
        assert(forall|t: int|
            0 <= t < s.drop_last().len() ==> is_digit(#[trigger] s.drop_last()[t]));
        lemma_digits_val_nonneg(s.drop_last());
        assert(digits_val(s.drop_last()) * 10 >= 0) by (nonlinear_arith)
            requires
                digits_val(s.drop_last()) >= 0,
        ;
    }
}

/// Two equal digit strings have equal values; with the value bounded, the
/// parse result is unique, so `choose` picks it.
proof fn lemma_parses_to_unique(s: Seq<u8>, v: int)
    requires
        parses_to(s, v),
    ensures
        (choose|w: int| parses_to(s, w)) == v,
{
    assert(parses_to(s, v));
    let w = choose|w: int| parses_to(s, w);
    assert(parses_to(s, w));
}

/// Decimal parse of `bytes[from..to]` as `usize::from_str` would read it:
/// `Some` exactly when the range is an optional `+` followed by at least one
/// digit and the value fits, and then the value itself.
#[verifier::loop_isolation(false)]
fn parse_usize(bytes: &[u8], from: usize, to: usize) -> (r: Option<usize>)
    requires
        from <= to <= bytes@.len(),
    ensures
        r matches Some(v) ==> parses_to(bytes@.subrange(from as int, to as int), v as int),
        r is None ==> forall|v: int| !parses_to(bytes@.subrange(from as int, to as int), v),
{
    let ghost whole = bytes@.subrange(from as int, to as int);
    if from == to {
        return None;
    }
    let mut start = from;
    if bytes[from] == 43u8 {
        start = from + 1;
    }
    let ghost digits = bytes@.subrange(start as int, to as int);
    proof {
        if whole.len() >= 1 && whole[0] == 43u8 {
            assert(whole.skip(1) =~= digits);
        } else {
            assert(whole =~= digits);
        }
    }
    if start == to {
        return None;
    }
    let mut acc: usize = 0;
    let mut k = start;
    while k < to
        invariant
            start <= k <= to,
            forall|t: int| 0 <= t < k - start ==> is_digit(#[trigger] digits[t]),
            acc as int == digits_val(digits.take(k - start)),
        decreases to - k,
    {
        let b = bytes[k];
        if !(48u8 <= b && b <= 57u8) {
            proof {
                assert(digits[k - start] == b);
                assert(!is_digits(digits));
            }
            return None;
        }
        let d = (b - 48u8) as usize;
        if acc > (usize::MAX - d) / 10 {
            // The value read so far already overflows `usize`; more digits
            // can only grow it.
            proof {
                assert forall|v: int| !parses_to(whole, v) by {
                    if parses_to(whole, v) {
                        assert(is_digits(digits));
                        lemma_digits_val_grows(digits, k + 1 - start as int);
                        assert(digits.take(k + 1 - start as int).drop_last() =~= digits.take(
                            k - start as int,
                        ));
                        assert(digits_val(digits.take(k + 1 - start as int)) == acc * 10 + d);
                        assert(acc * 10 + d > usize::MAX) by (nonlinear_arith)
                            requires
                                acc > (usize::MAX - d) / 10,
                                0 <= d <= 9,
                                acc >= 0,
                        ;
                    }
                }
            }
            return None;
        }
        proof {
            assert(acc * 10 + d <= usize::MAX) by (nonlinear_arith)
                requires
                    acc <= (usize::MAX - d) / 10,
                    0 <= d <= 9,
                    acc >= 0,
            ;
            assert(digits.take(k + 1 - start as int).drop_last() =~= digits.take(
                k - start as int,
            ));
        }
        acc = acc * 10 + d;
        k = k + 1;
    }
    proof {
        assert(digits.take(to - start as int) =~= digits);
        assert(parses_to(whole, acc as int));
    }
    Some(acc)
}

/// True iff `bytes[at .. at + pat.len()]` equals `pat`.
#[verifier::loop_isolation(false)]
fn match_at(bytes: &[u8], at: usize, pat: &Vec<u8>) -> (r: bool)
    requires
        at + pat@.len() <= bytes@.len(),
    ensures
        r == (bytes@.subrange(at as int, at + pat@.len()) =~= pat@),
{
    let m = pat.len();
    let total = bytes.len();
    let mut k: usize = 0;
    while k < m
        invariant
            k <= m,
            forall|t: int| 0 <= t < k ==> bytes@[at + t] == pat@[t],
        decreases m - k,
    {
        if bytes[at + k] != pat[k] {
            proof {
                assert(bytes@.subrange(at as int, at + pat@.len())[k as int] != pat@[k as int]);
            }
            return false;
        }
        k = k + 1;
    }
    proof {
        assert(bytes@.subrange(at as int, at + pat@.len()) =~= pat@);
    }
    true
}

fn count_name_vec() -> (v: Vec<u8>)
    ensures
        v@ == count_name(),
{
    let mut v: Vec<u8> = Vec::new();
    v.push(99u8);
    v.push(108u8);
    v.push(105u8);
    v.push(112u8);
    v.push(109u8);
    v.push(97u8);
    v.push(112u8);
    v.push(47u8);
    v.push(110u8);
    v.push(117u8);
    v.push(109u8);
    v.push(98u8);
    v.push(101u8);
    v.push(114u8);
    v.push(95u8);
    v.push(111u8);
    v.push(102u8);
    v.push(95u8);
    v.push(108u8);
    v.push(111u8);
    v.push(100u8);
    v.push(115u8);
    proof {
        assert(v@ =~= count_name());
    }
    v
}

fn lod_prefix_vec() -> (v: Vec<u8>)
    ensures
        v@ == lod_prefix(),
{
    let mut v: Vec<u8> = Vec::new();
    v.push(99u8);
    v.push(108u8);
    v.push(105u8);
    v.push(112u8);
    v.push(109u8);
    v.push(97u8);
    v.push(112u8);
    v.push(47u8);
    v.push(108u8);
    v.push(111u8);
    v.push(100u8);
    v.push(95u8);
    proof {
        assert(v@ =~= lod_prefix());
    }
    v
}

fn size_suffix_vec() -> (v: Vec<u8>)
    ensures
        v@ == size_suffix(),
{
    let mut v: Vec<u8> = Vec::new();
    v.push(47u8);
    v.push(115u8);
    v.push(105u8);
    v.push(122u8);
    v.push(101u8);
    proof {
        assert(v@ =~= size_suffix());
    }
    v
}

fn subdivisions_suffix_vec() -> (v: Vec<u8>)
    ensures
        v@ == subdivisions_suffix(),
{
    let mut v: Vec<u8> = Vec::new();
    v.push(47u8);
    v.push(115u8);
    v.push(117u8);
    v.push(98u8);
    v.push(100u8);
    v.push(105u8);
    v.push(118u8);
    v.push(105u8);
    v.push(115u8);
    v.push(105u8);
    v.push(111u8);
    v.push(110u8);
    v.push(115u8);
    proof {
        assert(v@ =~= subdivisions_suffix());
    }
    v
}

/// Recognizes a clipmap property name (see [`spec_parse_property`]):
/// `clipmap/number_of_lods`, `clipmap/lod_<index>/size` or
/// `clipmap/lod_<index>/subdivisions`.
pub fn parse_property_name(name: &str) -> (r: Option<PropKey>)
    ensures
        r == spec_parse_property(name.spec_bytes()),
{
    let bytes = name.as_bytes();
    let n = bytes.len();
    let count_pat = count_name_vec();
    if n == count_pat.len() && match_at(bytes, 0, &count_pat) {
        proof {
            assert(bytes@.subrange(0, n as int) =~= bytes@);
        }
        return Some(PropKey::Count);
    }
    let prefix = lod_prefix_vec();
    let size_suf = size_suffix_vec();
    if n >= prefix.len() + size_suf.len() && match_at(bytes, 0, &prefix) && match_at(
        bytes,
        n - size_suf.len(),
        &size_suf,
    ) {
        let mid = parse_usize(bytes, prefix.len(), n - size_suf.len());
        proof {
            assert(bytes@.take(lod_prefix().len() as int) =~= bytes@.subrange(
                0,
                prefix@.len() as int,
            ));
            assert(bytes@.skip(n - size_suffix().len()) =~= bytes@.subrange(
                n - size_suf@.len(),
                n as int,
            ));
        }
        match mid {
            Some(v) => {
                proof {
                    lemma_parses_to_unique(
                        bytes@.subrange(prefix@.len() as int, n - size_suf@.len()),
                        v as int,
                    );
                }
                return Some(PropKey::Size(v));
            },
            None => {
                proof {
                    let sb = bytes@;
                    if sb.len() >= lod_prefix().len() + subdivisions_suffix().len() && sb.skip(
                        sb.len() - subdivisions_suffix().len(),
                    ) == subdivisions_suffix() {
                        // A name cannot end in both `/size` and
                        // `/subdivisions`: the last bytes differ.
                        assert(sb.skip(sb.len() - subdivisions_suffix().len())[12] == sb[sb.len()
                            - 1]);
                        assert(sb.subrange(n - size_suf@.len(), n as int)[4] == sb[sb.len() - 1]);
                        assert(false);
                    }
                }
                return None;
            },
        }
    }
    let subd_suf = subdivisions_suffix_vec();
    if n >= prefix.len() + subd_suf.len() && match_at(bytes, 0, &prefix) && match_at(
        bytes,
        n - subd_suf.len(),
        &subd_suf,
    ) {
        let mid = parse_usize(bytes, prefix.len(), n - subd_suf.len());
        proof {
            assert(bytes@.take(lod_prefix().len() as int) =~= bytes@.subrange(
                0,
                prefix@.len() as int,
            ));
            assert(bytes@.skip(n - subdivisions_suffix().len()) =~= bytes@.subrange(
                n - subd_suf@.len(),
                n as int,
            ));
        }
        match mid {
            Some(v) => {
                proof {
                    lemma_parses_to_unique(
                        bytes@.subrange(prefix@.len() as int, n - subd_suf@.len()),
                        v as int,
                    );
                }
                return Some(PropKey::Subdivisions(v));
            },
            None => {
                return None;
            },
        }
    }
    None
}

} // verus!
