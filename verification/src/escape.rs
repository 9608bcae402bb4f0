//! Escaping: what it is, and that it can be undone.

use vstd::prelude::*;

use crate::text::whitespace;

verus! {

/// What stands for `c` in escaped text: the entity of each of `& < > ' "`, and any
/// other character itself.
pub open spec fn escaped_char(c: char) -> Seq<char> {
    if c == '&' {
        seq!['&', 'a', 'm', 'p', ';']
    } else if c == '<' {
        seq!['&', 'l', 't', ';']
    } else if c == '>' {
        seq!['&', 'g', 't', ';']
    } else if c == '\'' {
        seq!['&', 'a', 'p', 'o', 's', ';']
    } else if c == '"' {
        seq!['&', 'q', 'u', 'o', 't', ';']
    } else {
        seq![c]
    }
}

/// `s` with each of `& < > ' "` replaced by its entity.
pub open spec fn escaped(s: Seq<char>) -> Seq<char>
    decreases s.len(),
{
    if s.len() == 0 {
        Seq::empty()
    } else {
        escaped_char(s[0]) + escaped(s.drop_first())
    }
}

/// Escaping goes character by character, so a character added at the end adds what
/// stands for it at the end.
pub proof fn lemma_escaped_push(s: Seq<char>, c: char)
    ensures
        escaped(s.push(c)) == escaped(s) + escaped_char(c),
    decreases s.len(),
{
    if s.len() == 0 {
        assert(s.push(c).drop_first() =~= Seq::<char>::empty());
        assert(escaped(s.push(c).drop_first()) =~= Seq::<char>::empty());
        assert(escaped(s) =~= Seq::<char>::empty());
        assert(escaped(s.push(c)) =~= escaped(s) + escaped_char(c));
    } else {
        lemma_escaped_push(s.drop_first(), c);
        assert(s.push(c).drop_first() =~= s.drop_first().push(c));
        assert(escaped(s.push(c)) =~= escaped(s) + escaped_char(c));
    }
}

/// Whether `text` begins with `entity`.
pub open spec fn begins_with(text: Seq<char>, entity: Seq<char>) -> bool {
    text.len() >= entity.len() && text.take(entity.len() as int) == entity
}

/// Whether `text` begins with one of the five entities that escaping writes.
pub open spec fn begins_with_entity(text: Seq<char>) -> bool {
    begins_with(text, escaped_char('&')) || begins_with(text, escaped_char('<')) || begins_with(
        text,
        escaped_char('>'),
    ) || begins_with(text, escaped_char('\'')) || begins_with(text, escaped_char('"'))
}

/// `text` with each of the five entities replaced by the character it stands for,
/// as a reader of the document decodes it.
pub open spec fn unescaped(text: Seq<char>) -> Seq<char>
    decreases text.len(),
{
    if text.len() == 0 {
        Seq::empty()
    } else if begins_with(text, escaped_char('&')) {
        seq!['&'] + unescaped(text.skip(5))
    } else if begins_with(text, escaped_char('<')) {
        seq!['<'] + unescaped(text.skip(4))
    } else if begins_with(text, escaped_char('>')) {
        seq!['>'] + unescaped(text.skip(4))
    } else if begins_with(text, escaped_char('\'')) {
        seq!['\''] + unescaped(text.skip(6))
    } else if begins_with(text, escaped_char('"')) {
        seq!['"'] + unescaped(text.skip(6))
    } else {
        seq![text[0]] + unescaped(text.drop_first())
    }
}

/// Decoding the entities of an escaped text gives the text
/// back, whatever it holds.
pub proof fn law_escape_round_trip(s: Seq<char>)
    ensures
        unescaped(escaped(s)) == s,
    decreases s.len(),
{
    if s.len() > 0 {
        let c = s[0];
        let rest = s.drop_first();
        let head = escaped_char(c);
        let text = escaped(s);
        law_escape_round_trip(rest);
        assert(text == head + escaped(rest));
        assert(text.skip(head.len() as int) =~= escaped(rest));
        assert(text.take(head.len() as int) =~= head);
        assert(text[0] == head[0]);
        if c == '&' {
            assert(begins_with(text, escaped_char('&')));
        } else if c == '<' {
            assert(text[1] == 'l');
            assert(!begins_with(text, escaped_char('&'))) by {
                if begins_with(text, escaped_char('&')) {
                    assert(text.take(5)[1] == 'a');
                }
            }
            assert(begins_with(text, escaped_char('<')));
        } else if c == '>' {
            assert(text[1] == 'g');
            assert(!begins_with(text, escaped_char('&'))) by {
                if begins_with(text, escaped_char('&')) {
                    assert(text.take(5)[1] == 'a');
                }
            }
            assert(!begins_with(text, escaped_char('<'))) by {
                if begins_with(text, escaped_char('<')) {
                    assert(text.take(4)[1] == 'l');
                }
            }
            assert(begins_with(text, escaped_char('>')));
        } else if c == '\'' {
            assert(text[1] == 'a' && text[2] == 'p');
            assert(!begins_with(text, escaped_char('&'))) by {
                if begins_with(text, escaped_char('&')) {
                    assert(text.take(5)[2] == 'm');
                }
            }
            assert(!begins_with(text, escaped_char('<'))) by {
                if begins_with(text, escaped_char('<')) {
                    assert(text.take(4)[1] == 'l');
                }
            }
            assert(!begins_with(text, escaped_char('>'))) by {
                if begins_with(text, escaped_char('>')) {
                    assert(text.take(4)[1] == 'g');
                }
            }
            assert(begins_with(text, escaped_char('\'')));
        } else if c == '"' {
            assert(text[1] == 'q');
            assert(!begins_with(text, escaped_char('&'))) by {
                if begins_with(text, escaped_char('&')) {
                    assert(text.take(5)[1] == 'a');
                }
            }
            assert(!begins_with(text, escaped_char('<'))) by {
                if begins_with(text, escaped_char('<')) {
                    assert(text.take(4)[1] == 'l');
                }
            }
            assert(!begins_with(text, escaped_char('>'))) by {
                if begins_with(text, escaped_char('>')) {
                    assert(text.take(4)[1] == 'g');
                }
            }
            assert(!begins_with(text, escaped_char('\''))) by {
                if begins_with(text, escaped_char('\'')) {
                    assert(text.take(6)[1] == 'a');
                }
            }
            assert(begins_with(text, escaped_char('"')));
        } else {
            assert(text[0] == c);
            assert(!begins_with_entity(text)) by {
                if begins_with(text, escaped_char('&')) {
                    assert(text.take(5)[0] == '&');
                }
                if begins_with(text, escaped_char('<')) {
                    assert(text.take(4)[0] == '&');
                }
                if begins_with(text, escaped_char('>')) {
                    assert(text.take(4)[0] == '&');
                }
                if begins_with(text, escaped_char('\'')) {
                    assert(text.take(6)[0] == '&');
                }
                if begins_with(text, escaped_char('"')) {
                    assert(text.take(6)[0] == '&');
                }
            }
            assert(text.drop_first() =~= escaped(rest));
        }
        assert(unescaped(text) =~= seq![c] + unescaped(escaped(rest)));
        assert(seq![c] + rest =~= s);
    } else {
        assert(unescaped(escaped(s)) =~= s);
    }
}

/// An escaped text holds none of `< > ' "`, and holds `&` only where one of the five
/// entities begins: it can stand in a document where text or an attribute value is
/// expected.
pub proof fn law_escaped_is_plain(s: Seq<char>)
    ensures
        forall|i: int|
            0 <= i < escaped(s).len() ==> (#[trigger] escaped(s)[i]) != '<' && escaped(s)[i] != '>'
                && escaped(s)[i] != '\'' && escaped(s)[i] != '"' && (escaped(s)[i] == '&'
                ==> begins_with_entity(escaped(s).skip(i))),
    decreases s.len(),
{
    if s.len() > 0 {
        let c = s[0];
        let rest = s.drop_first();
        let head = escaped_char(c);
        let tail = escaped(rest);
        let text = escaped(s);
        law_escaped_is_plain(rest);
        assert(text == head + tail);
        assert forall|i: int| 0 <= i < text.len() implies (#[trigger] text[i]) != '<' && text[i]
            != '>' && text[i] != '\'' && text[i] != '"' && (text[i] == '&' ==> begins_with_entity(
            text.skip(i),
        )) by {
            if i < head.len() {
                assert(text[i] == head[i]);
                if text[i] == '&' {
                    assert(i == 0);
                    assert(text.skip(0).take(head.len() as int) =~= head);
                    assert(begins_with(text.skip(0), head));
                }
            } else {
                let k = i - head.len();
                assert(text[i] == tail[k]);
                assert(text.skip(i) =~= tail.skip(k));
            }
        }
    }
}

/// `s` with each slash and each white space character replaced by an underscore.
pub open spec fn path_escaped(s: Seq<char>) -> Seq<char> {
    Seq::new(s.len(), |i: int| if s[i] == '/' || whitespace(s[i]) { '_' } else { s[i] })
}

} // verus!
