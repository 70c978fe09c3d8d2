//! Texts: their order, lists of them, and numbers as texts.
use vstd::prelude::*;

verus! {

/// Text `a` comes before text `b`, or is equal to it, when both are ordered by their characters.
pub open spec fn text_le(a: Seq<char>, b: Seq<char>) -> bool
    decreases a.len(),
{
    a.len() == 0 || (b.len() > 0 && (a[0] < b[0] || (a[0] == b[0] && text_le(
        a.skip(1),
        b.skip(1),
    ))))
}

/// Text `a` comes strictly before text `b`.
pub open spec fn text_lt(a: Seq<char>, b: Seq<char>) -> bool {
    text_le(a, b) && a != b
}

/// Of two texts one comes before the other, and only equal ones both come before each other.
pub(crate) proof fn lemma_text_order(a: Seq<char>, b: Seq<char>)
    ensures
        text_le(a, b) || text_le(b, a),
        text_le(a, b) && text_le(b, a) ==> a == b,
    decreases a.len(),
{
    if a.len() > 0 && b.len() > 0 {
        lemma_text_order(a.skip(1), b.skip(1));
        if text_le(a, b) && text_le(b, a) {
            assert(a =~= seq![a[0]] + a.skip(1));
            assert(b =~= seq![b[0]] + b.skip(1));
        }
    } else if text_le(a, b) && text_le(b, a) {
        assert(a =~= b);
    }
}

/// Two ascending lists of the same texts are equal.
pub(crate) proof fn lemma_ascending_is_unique(a: Seq<Seq<char>>, b: Seq<Seq<char>>)
    requires
        forall|i: int, j: int| 0 <= i < j < a.len() ==> text_lt(#[trigger] a[i], #[trigger] a[j]),
        forall|i: int, j: int| 0 <= i < j < b.len() ==> text_lt(#[trigger] b[i], #[trigger] b[j]),
        forall|text: Seq<char>| #[trigger] a.contains(text) <==> b.contains(text),
    ensures
        a == b,
    decreases a.len(),
{
    if a.len() == 0 {
        if b.len() > 0 {
            assert(b.contains(b[0]));
            assert(a.contains(b[0]));
        }
        assert(a =~= b);
    } else {
        assert(a.contains(a[0]));
        assert(b.contains(a[0]));
        let i = b.index_of(a[0]);
        assert(b.contains(b[0]));
        assert(a.contains(b[0]));
        let j = a.index_of(b[0]);
        if i != 0 {
            assert(text_lt(b[0], b[i]));
            assert(j != 0);
            assert(text_lt(a[0], a[j]));
            lemma_text_order(a[0], b[0]);
        }
        let front = a.skip(1);
        let other = b.skip(1);
        assert forall|text: Seq<char>| #[trigger]
            front.contains(text) <==> other.contains(text) by {
            if front.contains(text) {
                let k = front.index_of(text);
                assert(a[k + 1] == text);
                assert(text_lt(a[0], a[k + 1]));
                assert(a.contains(text));
                let n = b.index_of(text);
                assert(other[n - 1] == text);
            }
            if other.contains(text) {
                let k = other.index_of(text);
                assert(b[k + 1] == text);
                assert(text_lt(b[0], b[k + 1]));
                assert(b.contains(text));
                assert(a.contains(text));
                let n = a.index_of(text);
                assert(front[n - 1] == text);
            }
        }
        lemma_ascending_is_unique(front, other);
        assert(a =~= seq![a[0]] + front);
        assert(b =~= seq![b[0]] + other);
    }
}

/// Sorts names in ascending order with `slice::sort`, which keeps every item and orders strings by
/// their characters.
#[verifier::external_body]
pub(crate) fn sort_names(names: &mut Vec<String>)
    ensures
        final(names).deep_view().to_multiset() == old(names).deep_view().to_multiset(),
        forall|i: int, j: int|
            0 <= i <= j < final(names)@.len() ==> text_le(
                #[trigger] final(names)@[i]@,
                #[trigger] final(names)@[j]@,
            ),
{
    names.sort();
}

/// A rearrangement of distinct texts holds the same texts, each once.
pub(crate) proof fn lemma_rearranged(before: Seq<Seq<char>>, after: Seq<Seq<char>>)
    requires
        before.no_duplicates(),
        before.to_multiset() == after.to_multiset(),
    ensures
        after.no_duplicates(),
        forall|text: Seq<char>| #[trigger] after.contains(text) <==> before.contains(text),
{
    broadcast use vstd::seq_lib::group_to_multiset_ensures;

    before.lemma_multiset_has_no_duplicates();
    after.lemma_multiset_has_no_duplicates_conv();
    assert forall|text: Seq<char>| #[trigger]
        after.contains(text) <==> before.contains(text) by {
        assert(before.contains(text) <==> before.to_multiset().count(text) > 0);
        assert(after.contains(text) <==> after.to_multiset().count(text) > 0);
    }
}

/// An ASCII letter.
pub open spec fn is_letter(c: char) -> bool {
    ('a' <= c <= 'z') || ('A' <= c <= 'Z')
}

/// A hexadecimal digit.
pub open spec fn is_hex_digit(c: char) -> bool {
    ('0' <= c <= '9') || ('a' <= c <= 'f') || ('A' <= c <= 'F')
}

/// An ASCII letter or digit, or an underscore.
pub open spec fn is_word_character(c: char) -> bool {
    is_letter(c) || ('0' <= c <= '9') || c == '_'
}

/// The text holds an ASCII letter or digit, or an underscore.
pub open spec fn has_word_character(text: Seq<char>) -> bool {
    exists|i: int| 0 <= i < text.len() && is_word_character(#[trigger] text[i])
}

/// Tells whether the text holds an ASCII letter or digit, or an underscore.
pub fn contains_word_character(text: &str) -> (found: bool)
    ensures
        found == has_word_character(text@),
{
    let length = text.unicode_len();
    for i in 0..length
        invariant
            length == text@.len(),
            forall|k: int| 0 <= k < i ==> !is_word_character(#[trigger] text@[k]),
    {
        let c = text.get_char(i);
        if ('a' <= c && c <= 'z') || ('A' <= c && c <= 'Z') || ('0' <= c && c <= '9') || c == '_' {
            assert(is_word_character(text@[i as int]));
            return true;
        }
    }
    false
}

/// One decimal digit as a text.
pub open spec fn digit(value: nat) -> Seq<char> {
    seq![(value + '0' as nat) as char]
}

/// Decimal text of a number.
pub open spec fn decimal(value: nat) -> Seq<char>
    decreases value,
{
    if value < 10 {
        digit(value)
    } else {
        decimal(value / 10) + digit(value % 10)
    }
}

/// Returns the text of one decimal digit.
fn digit_text(value: u8) -> (text: &'static str)
    requires
        value < 10,
    ensures
        text@ == digit(value as nat),
{
    proof {
        reveal_strlit("0");
        reveal_strlit("1");
        reveal_strlit("2");
        reveal_strlit("3");
        reveal_strlit("4");
        reveal_strlit("5");
        reveal_strlit("6");
        reveal_strlit("7");
        reveal_strlit("8");
        reveal_strlit("9");
    }
    let text: &'static str = match value {
        0 => "0",
        1 => "1",
        2 => "2",
        3 => "3",
        4 => "4",
        5 => "5",
        6 => "6",
        7 => "7",
        8 => "8",
        _ => "9",
    };
    assert(text@ =~= digit(value as nat));
    text
}

/// Returns the decimal text of a number.
pub fn decimal_text(value: u8) -> (text: String)
    ensures
        text@ == decimal(value as nat),
    decreases value,
{
    if value < 10 {
        digit_text(value).to_owned()
    } else {
        decimal_text(value / 10).concat(digit_text(value % 10))
    }
}

/// Copies a list of texts.
pub(crate) fn copy_texts(texts: &Vec<String>) -> (copy: Vec<String>)
    ensures
        copy.deep_view() == texts.deep_view(),
{
    let mut copy: Vec<String> = Vec::new();
    for i in 0..texts.len()
        invariant
            copy.deep_view() == texts.deep_view().take(i as int),
    {
        let ghost before = copy.deep_view();
        copy.push(texts[i].clone());
        assert(copy.deep_view() =~= before.push(texts.deep_view()[i as int]));
        assert(copy.deep_view() =~= texts.deep_view().take(i + 1));
    }
    assert(texts.deep_view().take(texts@.len() as int) =~= texts.deep_view());
    copy
}

/// Tells whether two lists hold the same texts in the same order.
pub(crate) fn same_texts(left: &Vec<String>, right: &Vec<String>) -> (same: bool)
    ensures
        same == (left.deep_view() == right.deep_view()),
{
    if left.len() != right.len() {
        assert(left.deep_view().len() != right.deep_view().len());
        return false;
    }
    for i in 0..left.len()
        invariant
            left@.len() == right@.len(),
            forall|k: int| 0 <= k < i ==> left.deep_view()[k] == right.deep_view()[k],
    {
        if left[i] != right[i] {
            assert(left.deep_view()[i as int] != right.deep_view()[i as int]);
            return false;
        }
    }
    assert(left.deep_view() =~= right.deep_view());
    true
}

} // verus!
