//! Trimming, and escaping text for SQL `LIKE` patterns.

use vstd::prelude::*;

verus! {

/// Whether `c` has the Unicode property White_Space, which is what
/// `char::is_whitespace` and `str::trim` go by.
pub open spec fn is_unicode_whitespace(c: char) -> bool {
    let n = c as u32;
    ||| 0x09 <= n <= 0x0d
    ||| n == 0x20
    ||| n == 0x85
    ||| n == 0xa0
    ||| n == 0x1680
    ||| 0x2000 <= n <= 0x200a
    ||| n == 0x2028
    ||| n == 0x2029
    ||| n == 0x202f
    ||| n == 0x205f
    ||| n == 0x3000
}

/// `s` without its leading whitespace.
pub open spec fn trim_start(s: Seq<char>) -> Seq<char>
    decreases s.len(),
{
    if s.len() > 0 && is_unicode_whitespace(s[0]) {
        trim_start(s.drop_first())
    } else {
        s
    }
}

/// `s` without its trailing whitespace.
pub open spec fn trim_end(s: Seq<char>) -> Seq<char>
    decreases s.len(),
{
    if s.len() > 0 && is_unicode_whitespace(s.last()) {
        trim_end(s.drop_last())
    } else {
        s
    }
}

/// `s` without leading and trailing whitespace.
pub open spec fn trimmed(s: Seq<char>) -> Seq<char> {
    trim_end(trim_start(s))
}

/// Whether `s` is empty once trimmed, that is, holds only whitespace.
pub open spec fn is_blank(s: Seq<char>) -> bool {
    trimmed(s).len() == 0
}

/// `s` with each occurrence of `from` replaced by `to`.
pub open spec fn replaced(s: Seq<char>, from: char, to: Seq<char>) -> Seq<char>
    decreases s.len(),
{
    if s.len() == 0 {
        Seq::empty()
    } else {
        (if s[0] == from {
            to
        } else {
            seq![s[0]]
        }) + replaced(s.drop_first(), from, to)
    }
}

/// `s` with leading and trailing whitespace removed.
///
/// Calls `str::trim`; the contract states its documented behaviour: the
/// characters with the Unicode White_Space property are removed from both
/// ends.
#[verifier::external_body]
pub(crate) fn trim(s: &str) -> (r: &str)
    ensures
        r@ == trimmed(s@),
{
    s.trim()
}

/// `s` with every `from` replaced by `to`.
///
/// Calls `str::replace` with a `char` pattern; the contract states its
/// documented behaviour: each occurrence of the character, read from the
/// start, is replaced by `to`.
#[verifier::external_body]
fn replace_char(s: &str, from: char, to: &str) -> (r: String)
    ensures
        r@ == replaced(s@, from, to@),
{
    s.replace(from, to)
}

/// How one character is written in a `LIKE` pattern that uses `\` as its
/// escape character.
pub open spec fn escape_char(c: char) -> Seq<char> {
    if c == '\\' || c == '%' || c == '_' {
        seq!['\\', c]
    } else {
        seq![c]
    }
}

/// `s` written so that a `LIKE` pattern with `ESCAPE '\'` matches it
/// literally: `\`, `%` and `_` each get a `\` in front.
pub open spec fn escaped(s: Seq<char>) -> Seq<char>
    decreases s.len(),
{
    if s.len() == 0 {
        Seq::empty()
    } else {
        escape_char(s[0]) + escaped(s.drop_first())
    }
}

/// Reads an escaped text back: a `\` stands for the character after it.
pub open spec fn unescaped(t: Seq<char>) -> Seq<char>
    decreases t.len(),
{
    if t.len() == 0 {
        Seq::empty()
    } else if t[0] == '\\' && t.len() >= 2 {
        seq![t[1]] + unescaped(t.skip(2))
    } else {
        seq![t[0]] + unescaped(t.skip(1))
    }
}

/// Replacing a character distributes over concatenation.
proof fn lemma_replaced_concat(a: Seq<char>, b: Seq<char>, from: char, to: Seq<char>)
    ensures
        replaced(a + b, from, to) == replaced(a, from, to) + replaced(b, from, to),
    decreases a.len(),
{
    if a.len() == 0 {
        assert(a + b == b);
    } else {
        assert((a + b).drop_first() == a.drop_first() + b);
        lemma_replaced_concat(a.drop_first(), b, from, to);
        assert((a + b)[0] == a[0]);
    }
}

/// Replacing a character that does not occur changes nothing.
proof fn lemma_replaced_absent(s: Seq<char>, from: char, to: Seq<char>)
    requires
        !s.contains(from),
    ensures
        replaced(s, from, to) == s,
    decreases s.len(),
{
    if s.len() > 0 {
        assert(s.drop_first().contains(from) ==> s.contains(from)) by {
            if s.drop_first().contains(from) {
                let i = choose|i: int| 0 <= i < s.drop_first().len() && s.drop_first()[i] == from;
                assert(s[i + 1] == from);
            }
        }
        assert(s[0] != from) by {
            if s[0] == from {
                assert(s.contains(from));
            }
        }
        lemma_replaced_absent(s.drop_first(), from, to);
        assert(s == seq![s[0]] + s.drop_first());
    }
}

/// The three replacements of [`escape_like`] together escape the text.
proof fn lemma_three_replacements_escape(s: Seq<char>)
    ensures
        replaced(
            replaced(replaced(s, '\\', seq!['\\', '\\']), '%', seq!['\\', '%']),
            '_',
            seq!['\\', '_'],
        ) == escaped(s),
    decreases s.len(),
{
    let r1 = seq!['\\', '\\'];
    let r2 = seq!['\\', '%'];
    let r3 = seq!['\\', '_'];
    if s.len() == 0 {
    } else {
        let c = s[0];
        let rest = s.drop_first();
        lemma_three_replacements_escape(rest);
        let head1 = if c == '\\' { r1 } else { seq![c] };
        assert(replaced(s, '\\', r1) == head1 + replaced(rest, '\\', r1));
        lemma_replaced_concat(head1, replaced(rest, '\\', r1), '%', r2);
        let head2 = replaced(head1, '%', r2);
        lemma_replaced_concat(head2, replaced(replaced(rest, '\\', r1), '%', r2), '_', r3);
        let head3 = replaced(head2, '_', r3);
        assert(head3 == escape_char(c)) by {
            reveal_with_fuel(replaced, 3);
            if c == '\\' {
                assert(head1.drop_first().drop_first().len() == 0);
                assert(head1.drop_first() =~= seq!['\\']);
                assert(head2 =~= seq!['\\', '\\']);
                assert(head2.drop_first() =~= seq!['\\']);
            } else if c == '%' {
                assert(head1.drop_first() =~= Seq::<char>::empty());
                assert(head2 =~= seq!['\\', '%']);
                assert(head2.drop_first() =~= seq!['%']);
            } else if c == '_' {
                assert(head1.drop_first() =~= Seq::<char>::empty());
                assert(head2 =~= seq!['_']);
                assert(head2.drop_first() =~= Seq::<char>::empty());
            } else {
                assert(head1.drop_first() =~= Seq::<char>::empty());
                assert(head2 =~= seq![c]);
                assert(head2.drop_first() =~= Seq::<char>::empty());
            }
        }
    }
}

/// Escapes the `LIKE` wildcards `%` and `_`, and the escape character `\`
/// itself, so that a pattern built from the text matches it literally.
pub fn escape_like(value: &str) -> (r: String)
    ensures
        r@ == escaped(value@),
{
    proof {
        reveal_strlit("\\\\");
        reveal_strlit("\\%");
        reveal_strlit("\\_");
        assert("\\\\"@ =~= seq!['\\', '\\']);
        assert("\\%"@ =~= seq!['\\', '%']);
        assert("\\_"@ =~= seq!['\\', '_']);
        lemma_three_replacements_escape(value@);
    }
    let step1 = replace_char(value, '\\', "\\\\");
    let step2 = replace_char(step1.as_str(), '%', "\\%");
    replace_char(step2.as_str(), '_', "\\_")
}

/// Escaping can be undone: reading the escapes back gives the text that was escaped.
pub proof fn lemma_escape_like_is_reversible(s: Seq<char>)
    ensures
        unescaped(escaped(s)) == s,
    decreases s.len(),
{
    if s.len() > 0 {
        let c = s[0];
        let rest = s.drop_first();
        lemma_escape_like_is_reversible(rest);
        let t = escaped(s);
        assert(t == escape_char(c) + escaped(rest));
        if c == '\\' || c == '%' || c == '_' {
            assert(t[0] == '\\' && t[1] == c);
            assert(t.skip(2) =~= escaped(rest));
        } else {
            assert(t[0] == c);
            assert(t.skip(1) =~= escaped(rest));
        }
        assert(s =~= seq![c] + rest);
    }
}

/// In escaped text every `%` and `_` follows a `\`, so none of them acts as a
/// wildcard.
pub proof fn lemma_escaped_wildcards_follow_escape(s: Seq<char>, i: int)
    requires
        0 <= i < escaped(s).len(),
        escaped(s)[i] == '%' || escaped(s)[i] == '_',
    ensures
        i > 0 && escaped(s)[i - 1] == '\\',
    decreases s.len(),
{
    let c = s[0];
    let rest = s.drop_first();
    let head = escape_char(c);
    assert(escaped(s) == head + escaped(rest));
    if i >= head.len() {
        lemma_escaped_wildcards_follow_escape(rest, i - head.len());
    }
}

/// The `LIKE` pattern that finds `keyword` anywhere in a text: the keyword
/// escaped, between two `%`.
pub open spec fn contains_pattern(keyword: Seq<char>) -> Seq<char> {
    seq!['%'] + escaped(keyword) + seq!['%']
}

/// Builds the `LIKE` pattern that finds `keyword` anywhere in a text.
pub fn contains_pattern_of(keyword: &str) -> (r: String)
    ensures
        r@ == contains_pattern(keyword@),
{
    proof {
        reveal_strlit("%");
    }
    let mut like = String::from_str("%");
    let inner = escape_like(keyword);
    like.append(inner.as_str());
    like.append("%");
    like
}

} // verus!
