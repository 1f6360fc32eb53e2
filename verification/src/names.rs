//! Comparing node names, which are UTF-16, with texts.
use crate::text;
use vstd::prelude::*;

verus! {

/// A UTF-16 name equals a text up to ASCII case, unit by unit of the text's
/// UTF-16.
pub open spec fn same_ci(u: Seq<u16>, s: Seq<char>) -> bool {
    &&& u.len() == text::utf16(s).len()
    &&& forall|i: int|
        0 <= i < u.len() ==> text::lower_unit(#[trigger] u[i]) == text::lower_unit(
            text::utf16(s)[i],
        )
}

/// Case-insensitive ASCII compare of a UTF-16 name against a `&str`.
pub fn eq_ci(utf16: &[u16], ascii: &str) -> (r: bool)
    ensures
        r == same_ci(utf16@, ascii@),
{
    let units = text::units_of(ascii);
    if utf16.len() != units.len() {
        return false;
    }
    let mut i: usize = 0;
    while i < utf16.len()
        invariant
            i <= utf16.len(),
            utf16.len() == units.len(),
            units@ == text::utf16(ascii@),
            forall|k: int|
                0 <= k < i ==> text::lower_unit(#[trigger] utf16@[k]) == text::lower_unit(
                    units@[k],
                ),
        decreases utf16.len() - i,
    {
        if text::lower_ascii_u16(utf16[i]) != text::lower_ascii_u16(units[i]) {
            assert(text::lower_unit(utf16@[i as int]) != text::lower_unit(units@[i as int]));
            return false;
        }
        i += 1;
    }
    true
}

/// The name, decoded and folded, ends with a dot and `ext`.
pub open spec fn ends_in_ext(u: Seq<u16>, ext: Seq<char>) -> bool {
    (seq!['.'] + ext).is_suffix_of(text::lower(text::lossy(u)))
}

/// Whether a name has the extension (given in lower case).
pub fn has_ext_ci(name: &[u16], ext: &str) -> (r: bool)
    ensures
        r == ends_in_ext(name@, ext@),
{
    let decoded = text::lossy_chars(name);
    let folded = text::to_lower(decoded.as_slice());
    let mut tail: Vec<char> = Vec::new();
    tail.push('.');
    let mut rest = text::chars_of(ext);
    tail.append(&mut rest);
    assert(tail@ =~= seq!['.'] + ext@);
    text::finishes_with(folded.as_slice(), tail.as_slice())
}

/// A name equals a text where it has as many units and each is the same, or the
/// same letter in the other case.
pub proof fn names_differ_in_case_at_most(u: &[u16], s: &str, r: bool)
    requires
        call_ensures(eq_ci, (u, s), r),
    ensures
        r <==> {
            let w = text::utf16(s@);
            u@.len() == w.len() && forall|i: int|
                #![trigger u@[i]]
                0 <= i < u@.len() ==> u@[i] == w[i] || (65 <= u@[i] <= 90 && w[i] == u@[i] + 32)
                    || (97 <= u@[i] <= 122 && w[i] == u@[i] - 32)
        },
{
    let w = text::utf16(s@);
    if u@.len() == w.len() && forall|i: int|
        #![trigger u@[i]]
        0 <= i < u@.len() ==> u@[i] == w[i] || (65 <= u@[i] <= 90 && w[i] == u@[i] + 32) || (97
            <= u@[i] <= 122 && w[i] == u@[i] - 32) {
        assert forall|i: int| 0 <= i < u@.len() implies text::lower_unit(#[trigger] u@[i])
            == text::lower_unit(w[i]) by {}
        assert(same_ci(u@, s@));
    }
}

/// A name has an extension where a dot and the extension end it, in any case.
pub proof fn an_extension_stands_behind_a_dot(name: &[u16], ext: &str, r: bool)
    requires
        call_ensures(has_ext_ci, (name, ext), r),
    ensures
        r <==> {
            let s = text::lossy(name@);
            let n = s.len() - ext@.len();
            n >= 1 && s[n - 1] == '.' && forall|i: int|
                #![trigger ext@[i]]
                0 <= i < ext@.len() ==> ext@[i] == s[n + i] && !(65 <= s[n + i] as int && s[n
                    + i] as int <= 90) || (65 <= s[n + i] as int && s[n + i] as int <= 90 && ext@[i]
                    as int == s[n + i] as int + 32)
        },
{
    let s = text::lossy(name@);
    let low = text::lower(s);
    let tail = seq!['.'] + ext@;
    let n = s.len() - ext@.len();
    if r {
        assert(low.skip(n - 1) =~= tail) by {
            assert(low.subrange(low.len() - tail.len(), low.len() as int) =~= low.skip(n - 1));
        }
        assert(low[n - 1] == tail[0]);
        assert forall|i: int| #![trigger ext@[i]] 0 <= i < ext@.len() implies ext@[i]
            == text::lower_char(s[n + i]) by {
            assert(low.skip(n - 1)[i + 1] == tail[i + 1]);
        }
    }
    if n >= 1 && s[n - 1] == '.' && forall|i: int|
        #![trigger ext@[i]]
        0 <= i < ext@.len() ==> ext@[i] == s[n + i] && !(65 <= s[n + i] as int && s[n + i] as int
            <= 90) || (65 <= s[n + i] as int && s[n + i] as int <= 90 && ext@[i] as int == s[n
            + i] as int + 32) {
        assert forall|i: int| 0 <= i < tail.len() implies tail[i] == low[n - 1 + i] by {
            if i > 0 {
                assert(ext@[i - 1] == tail[i]);
            }
        }
        assert(tail =~= low.subrange(low.len() - tail.len(), low.len() as int));
        assert(tail.is_suffix_of(low));
    }
}

} // verus!
