//! The decisions of the `#[rapx::verify]` scan, on plain values: which attributes mark a
//! function for verification, which crates count as the standard library, and how the
//! bundled contract table is cleaned of trailing commas before it is parsed.

use vstd::prelude::*;

verus! {

/// One attribute of an item, as the scan sees it: whether it is a doc comment, and the
/// segments of its path (`["rapx", "verify"]` for `#[rapx::verify]`).
pub struct AttrInfo {
    pub is_doc_comment: bool,
    pub path: Vec<String>,
}

/// The attribute is `#[rapx::verify]` (and not a doc comment).
pub open spec fn is_rapx_verify(attr: AttrInfo) -> bool {
    &&& !attr.is_doc_comment
    &&& attr.path@.len() == 2
    &&& attr.path@[0]@ == "rapx"@
    &&& attr.path@[1]@ == "verify"@
}

/// Whether the two strings hold the same characters.
fn str_equals(a: &str, b: &str) -> (same: bool)
    ensures
        same == (a@ == b@),
{
    let ca = str_chars(a);
    let cb = str_chars(b);
    if ca.len() != cb.len() {
        return false;
    }
    let mut i: usize = 0;
    while i < ca.len()
        invariant
            ca@ == a@,
            cb@ == b@,
            ca@.len() == cb@.len(),
            i <= ca@.len(),
            forall|j: int| 0 <= j < i ==> #[trigger] ca@[j] == cb@[j],
        decreases ca@.len() - i,
    {
        if ca[i] != cb[i] {
            return false;
        }
        i += 1;
    }
    assert(a@ =~= b@);
    true
}

/// An attribute `#[rapx::s]` that is not a doc comment marks a verify target exactly when
/// `s` is `verify`: `#[rapx::requires]`, `#[rapx::inner]` and the like do not.
pub proof fn lemma_rapx_attr_marks_only_verify(attr: AttrInfo)
    requires
        !attr.is_doc_comment,
        attr.path@.len() == 2,
        attr.path@[0]@ == "rapx"@,
    ensures
        is_rapx_verify(attr) <==> attr.path@[1]@ == "verify"@,
{
}

/// A marking attribute is never a doc comment, and its path is exactly `rapx`, `verify`.
pub proof fn lemma_marking_attr_is_rapx_verify(attr: AttrInfo)
    requires
        is_rapx_verify(attr),
    ensures
        !attr.is_doc_comment,
        attr.path@.len() == 2,
        attr.path@[0]@ == "rapx"@,
        attr.path@[1]@ == "verify"@,
{
}

/// Whether some attribute in `attrs` is `#[rapx::verify]`.
pub fn has_rapx_verify_attr(attrs: &[AttrInfo]) -> (found: bool)
    ensures
        found == exists|i: int| 0 <= i < attrs@.len() && is_rapx_verify(#[trigger] attrs@[i]),
{
    let mut i: usize = 0;
    while i < attrs.len()
        invariant
            i <= attrs@.len(),
            forall|j: int| 0 <= j < i ==> !is_rapx_verify(#[trigger] attrs@[j]),
        decreases attrs@.len() - i,
    {
        let attr = &attrs[i];
        if !attr.is_doc_comment && attr.path.len() == 2 && str_equals(attr.path[0].as_str(), "rapx")
            && str_equals(attr.path[1].as_str(), "verify") {
            assert(is_rapx_verify(attrs@[i as int]));
            return true;
        }
        i += 1;
    }
    false
}

/// Whether a crate of this name is part of the standard library (`core`, `std` or `alloc`).
pub fn is_std_crate_name(name: &str) -> (is_std: bool)
    ensures
        is_std == (name@ == "core"@ || name@ == "std"@ || name@ == "alloc"@),
{
    str_equals(name, "core") || str_equals(name, "std") || str_equals(name, "alloc")
}

/// Whether the contracts of an unsafe callee come from the bundled standard-library table:
/// only when its own annotations give none and it lives in `core`, `std` or `alloc`.
pub fn uses_std_backup_contracts(annotated_none: bool, crate_name: &str) -> (backup: bool)
    ensures
        backup == (annotated_none && (crate_name@ == "core"@ || crate_name@ == "std"@
            || crate_name@ == "alloc"@)),
{
    annotated_none && is_std_crate_name(crate_name)
}

/// Unicode `White_Space`: the characters that `char::is_whitespace` accepts.
pub open spec fn is_white_space(c: char) -> bool {
    let u = c as int;
    ||| 0x9 <= u <= 0xD
    ||| u == 0x20
    ||| u == 0x85
    ||| u == 0xA0
    ||| u == 0x1680
    ||| 0x2000 <= u <= 0x200A
    ||| u == 0x2028
    ||| u == 0x2029
    ||| u == 0x202F
    ||| u == 0x205F
    ||| u == 0x3000
}

/// Whether the character has the Unicode `White_Space` property.
fn char_is_whitespace(c: char) -> (ws: bool)
    ensures
        ws == is_white_space(c),
{
    match c {
        '\u{9}'..='\u{D}' | '\u{20}' | '\u{85}' | '\u{A0}' | '\u{1680}' | '\u{2000}'..='\u{200A}'
        | '\u{2028}' | '\u{2029}' | '\u{202F}' | '\u{205F}' | '\u{3000}' => true,
        _ => false,
    }
}

/// The characters of `s`, in order.
fn str_chars(s: &str) -> (chars: Vec<char>)
    ensures
        chars@ == s@,
{
    let mut chars: Vec<char> = Vec::new();
    for c in it: s.chars()
        invariant
            it.seq() == s@,
            chars@ == it.seq().take(it.index() as int),
    {
        assert(it.seq().take(it.index() + 1) =~= chars@.push(c));
        chars.push(c);
    }
    assert(s@.take(s@.len() as int) =~= s@);
    chars
}

/// `String::with_capacity`: an empty string.
#[verifier::external_body]
fn string_with_capacity(capacity: usize) -> (s: String)
    ensures
        s@ == Seq::<char>::empty(),
{
    String::with_capacity(capacity)
}

/// `String::push`: the character is appended.
#[verifier::external_body]
fn string_push(s: &mut String, c: char)
    ensures
        final(s)@ == old(s)@.push(c),
{
    s.push(c);
}

/// After position `i` comes only whitespace and then a closing `}` or `]`.
pub open spec fn closes_after(chars: Seq<char>, i: int) -> bool {
    exists|j: int|
        #![trigger chars[j]]
        i < j < chars.len() && (chars[j] == '}' || chars[j] == ']') && forall|k: int|
            i < k < j ==> is_white_space(#[trigger] chars[k])
}

/// Position `i` holds a trailing comma: a comma that only whitespace separates from a
/// closing brace or bracket.
pub open spec fn is_trailing_comma(chars: Seq<char>, i: int) -> bool {
    chars[i] == ',' && closes_after(chars, i)
}

/// The first `n` characters of `chars` without their trailing commas.
pub open spec fn without_trailing_commas(chars: Seq<char>, n: int) -> Seq<char>
    decreases n,
{
    if n <= 0 {
        Seq::empty()
    } else {
        let rest = without_trailing_commas(chars, n - 1);
        if is_trailing_comma(chars, n - 1) {
            rest
        } else {
            rest.push(chars[n - 1])
        }
    }
}

/// A character other than a comma is always kept: the cleaned prefix grows by it.
pub proof fn lemma_non_comma_kept(chars: Seq<char>, i: int)
    requires
        0 <= i < chars.len(),
        chars[i] != ',',
    ensures
        without_trailing_commas(chars, i + 1) == without_trailing_commas(chars, i).push(chars[i]),
{
}

/// A comma that only Unicode `White_Space` characters (tab, line feed, vertical tab, form
/// feed, carriage return, space, U+0085, U+00A0, U+1680, U+2000 to U+200A, U+2028, U+2029,
/// U+202F, U+205F, U+3000: those `char::is_whitespace` accepts) separate from a closing `}`
/// or `]` is dropped: the cleaned prefix does not grow.
pub proof fn lemma_comma_before_closer_dropped(chars: Seq<char>, i: int, j: int)
    requires
        0 <= i < j < chars.len(),
        chars[i] == ',',
        chars[j] == '}' || chars[j] == ']',
        forall|k: int|
            i < k < j ==> (0x9 <= #[trigger] chars[k] as int <= 0xD || #[trigger] chars[k] as int == 0x20 || #[trigger] chars[k] as int == 0x85 || #[trigger] chars[k] as int == 0xA0
                || #[trigger] chars[k] as int == 0x1680 || 0x2000 <= #[trigger] chars[k] as int <= 0x200A || #[trigger] chars[k] as int == 0x2028
                || #[trigger] chars[k] as int == 0x2029 || #[trigger] chars[k] as int == 0x202F || #[trigger] chars[k] as int == 0x205F || #[trigger] chars[k] as int == 0x3000),
    ensures
        without_trailing_commas(chars, i + 1) == without_trailing_commas(chars, i),
{
    assert forall|k: int| i < k < j implies is_white_space(#[trigger] chars[k]) by {}
    assert(closes_after(chars, i)) by {
        assert(chars[j] == '}' || chars[j] == ']');
    }
}

/// A comma is kept when, before every later closing `}` or `]`, some character that is not
/// Unicode `White_Space` (none of the characters listed for
/// [`lemma_comma_before_closer_dropped`]) comes first.
pub proof fn lemma_comma_before_other_kept(chars: Seq<char>, i: int)
    requires
        0 <= i < chars.len(),
        chars[i] == ',',
        forall|j: int|
            #![trigger chars[j]]
            i < j < chars.len() && (chars[j] == '}' || chars[j] == ']') ==> exists|k: int|
                i < k < j && !(0x9 <= #[trigger] chars[k] as int <= 0xD || #[trigger] chars[k] as int == 0x20 || #[trigger] chars[k] as int == 0x85 || #[trigger] chars[k] as int == 0xA0
                || #[trigger] chars[k] as int == 0x1680 || 0x2000 <= #[trigger] chars[k] as int <= 0x200A || #[trigger] chars[k] as int == 0x2028
                || #[trigger] chars[k] as int == 0x2029 || #[trigger] chars[k] as int == 0x202F || #[trigger] chars[k] as int == 0x205F || #[trigger] chars[k] as int == 0x3000),
    ensures
        without_trailing_commas(chars, i + 1) == without_trailing_commas(chars, i).push(','),
{
    assert(!closes_after(chars, i)) by {
        if closes_after(chars, i) {
            let j = choose|j: int|
                #![trigger chars[j]]
                i < j < chars.len() && (chars[j] == '}' || chars[j] == ']') && forall|k: int|
                    i < k < j ==> is_white_space(#[trigger] chars[k]);
            let k = choose|k: int| i < k < j && !(0x9 <= #[trigger] chars[k] as int <= 0xD || #[trigger] chars[k] as int == 0x20 || #[trigger] chars[k] as int == 0x85 || #[trigger] chars[k] as int == 0xA0
                || #[trigger] chars[k] as int == 0x1680 || 0x2000 <= #[trigger] chars[k] as int <= 0x200A || #[trigger] chars[k] as int == 0x2028
                || #[trigger] chars[k] as int == 0x2029 || #[trigger] chars[k] as int == 0x202F || #[trigger] chars[k] as int == 0x205F || #[trigger] chars[k] as int == 0x3000);
            assert(is_white_space(chars[k]));
        }
    }
}

/// Removes every trailing comma (a comma followed, after optional whitespace, by `}` or
/// `]`) from JSON-like text and keeps every other character in order.
pub fn normalize_json_trailing_commas(input: &str) -> (normalized: String)
    ensures
        normalized@ == without_trailing_commas(input@, input@.len() as int),
{
    let chars = str_chars(input);
    let mut normalized = string_with_capacity(input.len());
    let mut i: usize = 0;

    while i < chars.len()
        invariant
            chars@ == input@,
            i <= chars@.len(),
            normalized@ == without_trailing_commas(chars@, i as int),
        decreases chars@.len() - i,
    {
        let ch = chars[i];
        if ch == ',' {
            let mut j = i + 1;
            while j < chars.len() && char_is_whitespace(chars[j])
                invariant
                    i < j <= chars@.len(),
                    forall|k: int| i < k < j ==> is_white_space(#[trigger] chars@[k]),
                decreases chars@.len() - j,
            {
                j += 1;
            }
            if j < chars.len() && (chars[j] == '}' || chars[j] == ']') {
                assert(is_trailing_comma(chars@, i as int)) by {
                    assert(chars@[j as int] == '}' || chars@[j as int] == ']');
                }
                i += 1;
                continue;
            }
            assert(!closes_after(chars@, i as int)) by {
                if closes_after(chars@, i as int) {
                    let w = choose|w: int|
                        #![trigger chars@[w]]
                        i < w < chars@.len() && (chars@[w] == '}' || chars@[w] == ']') && forall|k: int|
                            i < k < w ==> is_white_space(#[trigger] chars@[k]);
                    if w < j {
                        assert(is_white_space(chars@[w]));
                    } else if w > j {
                        assert(is_white_space(chars@[j as int]));
                    }
                }
            }
        }
        string_push(&mut normalized, ch);
        i += 1;
    }

    normalized
}

} // verus!
