//! Default display labels derived from routes.

use crate::text::{
    append_chars, chars_of, copy_chars, join, join_chars, seqs, split,
    split_at_marks, split_marked, split_on, string_of,
};
use vstd::prelude::*;

verus! {

/// Whether a character is whitespace: the code points that have the
/// Unicode property `White_Space`.
pub open spec fn is_whitespace(c: char) -> bool {
    let n = c as int;
    ||| 0x09 <= n <= 0x0D
    ||| n == 0x20
    ||| n == 0x85
    ||| n == 0xA0
    ||| n == 0x1680
    ||| 0x2000 <= n <= 0x200A
    ||| 0x2028 <= n <= 0x2029
    ||| n == 0x202F
    ||| n == 0x205F
    ||| n == 0x3000
}

/// The characters that `char::to_uppercase` yields for a character
/// outside ASCII.
pub uninterp spec fn unicode_uppercase(c: char) -> Seq<char>;

/// The ASCII character is a lower-case letter.
pub open spec fn is_ascii_lowercase(c: char) -> bool {
    0x61 <= c as int <= 0x7A
}

/// The upper-case form of an ASCII character: the letters `a` to `z` give
/// `A` to `Z`, every other character gives itself.
pub open spec fn ascii_uppercase(c: char) -> char {
    if is_ascii_lowercase(c) {
        ((c as int) - 0x20) as char
    } else {
        c
    }
}

/// The upper-case form of a character, which may be several characters.
pub open spec fn uppercase_of(c: char) -> Seq<char> {
    if (c as int) < 0x80 {
        seq![ascii_uppercase(c)]
    } else {
        unicode_uppercase(c)
    }
}

/// Tests a character for whitespace.
///
/// Trusted: the body calls `char::is_whitespace`, which holds of the code
/// points with the property `White_Space`; the contract lists them.
#[verifier::external_body]
fn char_is_whitespace(c: char) -> (r: bool)
    ensures
        r == is_whitespace(c),
{
    c.is_whitespace()
}

/// The uppercase form of a character, which may be several characters.
///
/// Trusted: the body collects what `char::to_uppercase` yields. For an
/// ASCII character that is the one character of `ascii_uppercase`; for any
/// other the contract only gives the sequence the name `unicode_uppercase`.
#[verifier::external_body]
fn char_to_uppercase(c: char) -> (v: Vec<char>)
    ensures
        (c as int) < 0x80 ==> v@ == seq![ascii_uppercase(c)],
        (c as int) >= 0x80 ==> v@ == unicode_uppercase(c),
{
    c.to_uppercase().collect()
}

/// For each position of `s`, whether it holds whitespace.
pub open spec fn whitespace_marks(s: Seq<char>) -> Seq<bool> {
    s.map_values(|c: char| is_whitespace(c))
}

/// The predicate that holds of non-empty texts.
pub open spec fn nonempty_filter() -> spec_fn(Seq<char>) -> bool {
    |piece: Seq<char>| piece.len() > 0
}

/// The words of a text: its maximal runs of non-whitespace characters.
pub open spec fn words(s: Seq<char>) -> Seq<Seq<char>> {
    split_marked(s, whitespace_marks(s)).filter(nonempty_filter())
}

/// `word` with `initial` in place of its first character.
pub open spec fn with_initial(word: Seq<char>, initial: Seq<char>) -> Seq<char> {
    if word.len() == 0 {
        initial
    } else {
        initial + word.skip(1)
    }
}

/// A word with its first character in uppercase.
pub open spec fn capitalized(word: Seq<char>) -> Seq<char> {
    if word.len() == 0 {
        word
    } else {
        with_initial(word, uppercase_of(word[0]))
    }
}

/// Each word capitalized.
pub open spec fn capitalize_each(ws: Seq<Seq<char>>) -> Seq<Seq<char>> {
    ws.map_values(|w: Seq<char>| capitalized(w))
}

/// The words of `s`, each capitalized, with single spaces between them.
pub open spec fn title_case(s: Seq<char>) -> Seq<char> {
    join(capitalize_each(words(s)), seq![' '])
}

/// The text with every `-` replaced by a space.
pub open spec fn dashes_to_spaces(s: Seq<char>) -> Seq<char> {
    s.map_values(
        |c: char|
            if c == '-' {
                ' '
            } else {
                c
            },
    )
}

/// The non-empty components of a route.
pub open spec fn components(route: Seq<char>) -> Seq<Seq<char>> {
    split_on(route, '/').filter(nonempty_filter())
}

/// The label a route gets when nobody has edited it: `Home` for the root;
/// otherwise the last component in title case, with ` Detail` appended when
/// that component is dynamic.
pub open spec fn default_label(route: Seq<char>) -> Seq<char> {
    if route == seq!['/'] {
        "Home"@
    } else if components(route).len() == 0 {
        "Page"@
    } else {
        let last = components(route).last();
        if last[0] == ':' {
            title_case(dashes_to_spaces(last.skip(1))) + " Detail"@
        } else {
            title_case(dashes_to_spaces(last))
        }
    }
}

/// The non-empty pieces, in order.
fn keep_nonempty(pieces: &Vec<Vec<char>>) -> (kept: Vec<Vec<char>>)
    ensures
        seqs(kept@) == seqs(pieces@).filter(nonempty_filter()),
{
    let mut kept: Vec<Vec<char>> = Vec::new();
    let mut i: usize = 0;
    assert(seqs(pieces@).take(0) =~= Seq::<Seq<char>>::empty());
    assert(Seq::<Seq<char>>::empty().filter(nonempty_filter()) =~= Seq::<Seq<char>>::empty())
        by {
        reveal(Seq::filter);
    }
    while i < pieces.len()
        invariant
            i <= pieces.len(),
            seqs(kept@) == seqs(pieces@).take(i as int).filter(nonempty_filter()),
        decreases pieces.len() - i,
    {
        let piece = &pieces[i];
        proof {
            let done = seqs(pieces@).take(i as int);
            done.lemma_filter_push(piece@, nonempty_filter());
            assert(seqs(pieces@).take(i + 1) =~= done.push(piece@));
        }
        if piece.len() > 0 {
            let ghost before = seqs(kept@);
            kept.push(copy_chars(piece));
            assert(seqs(kept@) =~= before.push(piece@));
        }
        i += 1;
    }
    assert(seqs(pieces@).take(pieces.len() as int) =~= seqs(pieces@));
    kept
}

/// The words of a text.
fn split_words(chars: &Vec<char>) -> (ws: Vec<Vec<char>>)
    ensures
        seqs(ws@) == words(chars@),
{
    let mut marks: Vec<bool> = Vec::new();
    let mut i: usize = 0;
    while i < chars.len()
        invariant
            i <= chars.len(),
            marks.len() == i,
            forall|j: int| 0 <= j < i ==> marks@[j] == is_whitespace(chars@[j]),
        decreases chars.len() - i,
    {
        marks.push(char_is_whitespace(chars[i]));
        i += 1;
    }
    assert(marks@ =~= whitespace_marks(chars@));
    let pieces = split_at_marks(chars, &marks);
    keep_nonempty(&pieces)
}

/// Puts `initial` in place of the first character of `word`.
pub fn replace_first(word: &Vec<char>, initial: &Vec<char>) -> (out: Vec<char>)
    ensures
        out@ == with_initial(word@, initial@),
{
    let mut out = copy_chars(initial);
    if word.len() == 0 {
        return out;
    }
    let mut i: usize = 1;
    assert(out@ =~= initial@ + word@.subrange(1, 1));
    while i < word.len()
        invariant
            1 <= i <= word.len(),
            out@ == initial@ + word@.subrange(1, i as int),
        decreases word.len() - i,
    {
        out.push(word[i]);
        assert(word@.subrange(1, i + 1) =~= word@.subrange(1, i as int).push(word@[i as int]));
        i += 1;
    }
    assert(word@.subrange(1, word.len() as int) =~= word@.skip(1));
    out
}

/// The characters of `s` in title case.
fn title_case_chars(chars: &Vec<char>) -> (out: Vec<char>)
    ensures
        out@ == title_case(chars@),
{
    let ws = split_words(chars);
    let mut caps: Vec<Vec<char>> = Vec::new();
    let mut i: usize = 0;
    while i < ws.len()
        invariant
            i <= ws.len(),
            seqs(caps@) == capitalize_each(seqs(ws@).take(i as int)),
        decreases ws.len() - i,
    {
        let word = &ws[i];
        let cap = if word.len() == 0 {
            copy_chars(word)
        } else {
            replace_first(word, &char_to_uppercase(word[0]))
        };
        let ghost before = seqs(caps@);
        caps.push(cap);
        proof {
            assert(seqs(caps@) =~= before.push(capitalized(word@)));
            assert(seqs(ws@).take(i + 1) =~= seqs(ws@).take(i as int).push(word@));
            assert(capitalize_each(seqs(ws@).take(i as int).push(word@)) =~= capitalize_each(
                seqs(ws@).take(i as int),
            ).push(capitalized(word@)));
        }
        i += 1;
    }
    assert(seqs(ws@).take(ws.len() as int) =~= seqs(ws@));
    let mut space: Vec<char> = Vec::new();
    space.push(' ');
    assert(space@ =~= seq![' ']);
    join_chars(&caps, &space)
}

/// Puts each whitespace-delimited word of `s` in title case: the first
/// character in uppercase, the rest unchanged, single spaces between words.
pub fn capitalize_words(s: &str) -> (r: String)
    ensures
        r@ == title_case(s@),
{
    string_of(&title_case_chars(&chars_of(s)))
}

/// The characters with every `-` replaced by a space.
fn spaces_for_dashes(chars: &Vec<char>, from: usize) -> (out: Vec<char>)
    requires
        from <= chars.len(),
    ensures
        out@ == dashes_to_spaces(chars@.skip(from as int)),
{
    let mut out: Vec<char> = Vec::new();
    let mut i: usize = from;
    while i < chars.len()
        invariant
            from <= i <= chars.len(),
            out@ == dashes_to_spaces(chars@.subrange(from as int, i as int)),
        decreases chars.len() - i,
    {
        let c = chars[i];
        out.push(if c == '-' { ' ' } else { c });
        assert(out@ =~= dashes_to_spaces(chars@.subrange(from as int, i + 1)));
        i += 1;
    }
    assert(chars@.subrange(from as int, chars.len() as int) =~= chars@.skip(from as int));
    out
}

/// The default display label of a route.
pub fn default_label_for_route(route: &str) -> (r: String)
    ensures
        r@ == default_label(route@),
{
    let chars = chars_of(route);
    if chars.len() == 1 && chars[0] == '/' {
        assert(route@ =~= seq!['/']);
        return "Home".to_owned();
    }
    let parts = keep_nonempty(&split(&chars, '/'));
    if parts.len() == 0 {
        return "Page".to_owned();
    }
    let last = &parts[parts.len() - 1];
    assert(components(route@).last() == last@);
    assert(last@.len() > 0) by {
        lemma_components_are_nonempty(route@, parts.len() - 1);
    }
    if last[0] == ':' {
        let mut label = title_case_chars(&spaces_for_dashes(last, 1));
        append_chars(&mut label, &chars_of(" Detail"));
        string_of(&label)
    } else {
        assert(last@.skip(0) =~= last@);
        string_of(&title_case_chars(&spaces_for_dashes(last, 0)))
    }
}

/// No component of a route is empty.
pub proof fn lemma_components_are_nonempty(route: Seq<char>, i: int)
    requires
        0 <= i < components(route).len(),
    ensures
        components(route)[i].len() > 0,
{
    split_on(route, '/').lemma_filter_pred(nonempty_filter(), i);
}

} // verus!
