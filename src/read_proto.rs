//! Reading a `.proto` schema description into a [`Schema`].
use vstd::prelude::*;
use vstd::slice::slice_subrange;
use crate::proto_structure::{
    annotation_of, chars_eq, links_valid, names_unique, numbering_scope, schema_wf, tags_unique, FieldEntry,
    KindOf, ProtoAnnotation, ProtoAttribute, Schema, Scope,
};

verus! {

/// Why a schema text was refused.
#[derive(Debug, Clone, Copy, PartialEq, Eq, Structural)]
pub enum SchemaError {
    /// Two fields of one numbering scope share a tag.
    DuplicateTag,
    /// Two scopes of one parent share a name.
    DuplicateName,
    /// A tag that is not a positive decimal integer of 32 bits.
    MalformedTag,
    /// A scope that is still open at the end of the text.
    Unterminated,
    /// A field label other than optional, repeated, required or map.
    UnknownAnnotation,
    /// A construct in a place where it cannot stand.
    Unexpected,
}

/// Relies on `str::chars`: the characters of the text, in order.
#[verifier::external_body]
pub(crate) fn chars_of(s: &str) -> (r: Vec<char>)
    ensures
        r@ == s@,
{
    s.chars().collect()
}

/// Relies on `String: FromIterator<&char>`: the string of these characters.
#[verifier::external_body]
pub(crate) fn string_of(cs: &[char]) -> (r: String)
    ensures
        r@ == cs@,
{
    cs.iter().collect()
}

pub open spec fn is_word_char(c: char) -> bool {
    ('a' <= c && c <= 'z') || ('A' <= c && c <= 'Z') || ('0' <= c && c <= '9') || c == '_' || c
        == '.' || c == '-'
}

pub open spec fn is_space(c: char) -> bool {
    c == ' ' || c == '\t' || c == '\n' || c == '\r'
}

/// Token boundaries lie inside the text, in increasing order, and no token
/// is empty.
pub open spec fn tokens_wf(text: Seq<char>, toks: Seq<(usize, usize)>) -> bool {
    &&& forall|k: int|
        0 <= k < toks.len() ==> #[trigger] toks[k].0 < toks[k].1 && toks[k].1 <= text.len()
    &&& forall|k: int| 0 < k < toks.len() ==> #[trigger] toks[k - 1].1 <= toks[k].0
}

fn word_char(c: char) -> (r: bool)
    ensures
        r == is_word_char(c),
{
    ('a' <= c && c <= 'z') || ('A' <= c && c <= 'Z') || ('0' <= c && c <= '9') || c == '_' || c
        == '.' || c == '-'
}

/// The first newline at or after `j`, or the end of the text.
pub open spec fn newline_end(text: Seq<char>, j: int) -> int
    decreases text.len() - j,
{
    if j >= text.len() || text[j] == '\n' {
        j
    } else {
        newline_end(text, j + 1)
    }
}

/// The position after the first `*/` at or after `j`, or the end of the text.
pub open spec fn block_end(text: Seq<char>, j: int) -> int
    decreases text.len() - j,
{
    if j >= text.len() {
        j
    } else if text[j] == '*' && j + 1 < text.len() && text[j + 1] == '/' {
        j + 2
    } else {
        block_end(text, j + 1)
    }
}

/// The position after the first `"` at or after `j`, or the end of the text.
pub open spec fn quote_end(text: Seq<char>, j: int) -> int
    decreases text.len() - j,
{
    if j >= text.len() {
        j
    } else if text[j] == '"' {
        j + 1
    } else {
        quote_end(text, j + 1)
    }
}

/// The end of the run of word characters from `j`.
pub open spec fn word_end(text: Seq<char>, j: int) -> int
    decreases text.len() - j,
{
    if j < text.len() && is_word_char(text[j]) {
        word_end(text, j + 1)
    } else {
        j
    }
}

/// The tokens of the text from position `i` on: words, quoted strings and
/// single punctuation characters, as `(start, end)`; whitespace, `//` line
/// comments and `/* */` block comments separate them.
pub open spec fn tokens_from(text: Seq<char>, i: int) -> Seq<(usize, usize)>
    decreases text.len() - i,
{
    if i < 0 || i >= text.len() {
        Seq::empty()
    } else if is_space(text[i]) {
        tokens_from(text, i + 1)
    } else if text[i] == '/' && i + 1 < text.len() && text[i + 1] == '/' {
        let j = newline_end(text, i);
        if j <= i || j > text.len() {
            Seq::empty()
        } else {
            tokens_from(text, j)
        }
    } else if text[i] == '/' && i + 1 < text.len() && text[i + 1] == '*' {
        let j = block_end(text, i + 2);
        if j <= i || j > text.len() {
            Seq::empty()
        } else {
            tokens_from(text, j)
        }
    } else {
        let j = if text[i] == '"' {
            quote_end(text, i + 1)
        } else if is_word_char(text[i]) {
            word_end(text, i + 1)
        } else {
            i + 1
        };
        if j <= i || j > text.len() {
            Seq::empty()
        } else {
            seq![(i as usize, j as usize)] + tokens_from(text, j)
        }
    }
}

proof fn lemma_scan_bounds(text: Seq<char>, j: int)
    requires
        0 <= j <= text.len(),
    ensures
        j <= newline_end(text, j) <= text.len(),
        j <= block_end(text, j) <= text.len(),
        j <= quote_end(text, j) <= text.len(),
        j <= word_end(text, j) <= text.len(),
    decreases text.len() - j,
{
    if j < text.len() {
        lemma_scan_bounds(text, j + 1);
    }
}

/// The position of the first newline at or after `i` (the end of a line
/// comment), or the end of the text.
fn scan_until_newline(text: &Vec<char>, i: usize) -> (j: usize)
    requires
        i <= text@.len(),
    ensures
        j == newline_end(text@, i as int),
{
    let n = text.len();
    let mut j = i;
    while j < n && text[j] != '\n'
        invariant
            n == text@.len(),
            i <= j <= n,
            newline_end(text@, j as int) == newline_end(text@, i as int),
        decreases n - j,
    {
        j += 1;
    }
    j
}

/// The position just after the `*/` that closes a block comment whose body
/// starts at `i`, or the end of the text.
fn scan_block_comment(text: &Vec<char>, i: usize) -> (j: usize)
    requires
        i <= text@.len(),
    ensures
        j == block_end(text@, i as int),
{
    let n = text.len();
    let mut j = i;
    while j < n && !(text[j] == '*' && j + 1 < n && text[j + 1] == '/')
        invariant
            n == text@.len(),
            i <= j <= n,
            block_end(text@, j as int) == block_end(text@, i as int),
        decreases n - j,
    {
        j += 1;
    }
    if j < n {
        j + 2
    } else {
        j
    }
}

/// The position just after the quote that closes a string opened at `i`.
fn scan_quoted(text: &Vec<char>, i: usize) -> (j: usize)
    requires
        i < text@.len(),
    ensures
        j == quote_end(text@, i + 1),
{
    let n = text.len();
    let mut j = i + 1;
    while j < n && text[j] != '"'
        invariant
            n == text@.len(),
            i < j <= n,
            quote_end(text@, j as int) == quote_end(text@, i + 1),
        decreases n - j,
    {
        j += 1;
    }
    if j < n {
        j + 1
    } else {
        j
    }
}

/// The end of the run of word characters that starts at `i`.
fn scan_word(text: &Vec<char>, i: usize) -> (j: usize)
    requires
        i < text@.len(),
    ensures
        j == word_end(text@, i + 1),
{
    let n = text.len();
    let mut j = i + 1;
    while j < n && word_char(text[j])
        invariant
            n == text@.len(),
            i < j <= n,
            word_end(text@, j as int) == word_end(text@, i + 1),
        decreases n - j,
    {
        j += 1;
    }
    j
}

/// Splits the text into words, quoted strings and single punctuation
/// characters; whitespace and comments separate tokens and are dropped.
pub fn tokenize(text: &Vec<char>) -> (toks: Vec<(usize, usize)>)
    ensures
        toks@ == tokens_from(text@, 0),
        tokens_wf(text@, toks@),
{
    let n = text.len();
    let mut toks: Vec<(usize, usize)> = Vec::new();
    let mut i: usize = 0;
    while i < n
        invariant
            n == text@.len(),
            i <= n,
            toks@ + tokens_from(text@, i as int) == tokens_from(text@, 0),
            tokens_wf(text@, toks@),
            toks@.len() > 0 ==> toks@.last().1 <= i,
        decreases n - i,
    {
        let c = text[i];
        proof {
            lemma_scan_bounds(text@, i as int);
            lemma_scan_bounds(text@, i + 1);
            if i + 2 <= n {
                lemma_scan_bounds(text@, i + 2);
            }
        }
        if c == ' ' || c == '\t' || c == '\n' || c == '\r' {
            i += 1;
        } else if c == '/' && i + 1 < n && text[i + 1] == '/' {
            i = scan_until_newline(text, i);
        } else if c == '/' && i + 1 < n && text[i + 1] == '*' {
            i = scan_block_comment(text, i + 2);
        } else {
            let j = if c == '"' {
                scan_quoted(text, i)
            } else if word_char(c) {
                scan_word(text, i)
            } else {
                i + 1
            };
            let ghost before = toks@;
            toks.push((i, j));
            proof {
                assert(toks@ + tokens_from(text@, j as int) =~= before + (seq![(i, j)] + tokens_from(text@, j as int)));
                assert forall|k: int| 0 <= k < toks@.len() implies #[trigger] toks@[k].0 < toks@[k].1
                    && toks@[k].1 <= text@.len() by {
                    if k < before.len() {
                        assert(toks@[k] == before[k]);
                    }
                }
                assert forall|k: int| 0 < k < toks@.len() implies #[trigger] toks@[k - 1].1
                    <= toks@[k].0 by {
                    assert(toks@[k - 1] == before[k - 1] || k - 1 == before.len());
                    if k < before.len() {
                        assert(toks@[k] == before[k]);
                    }
                }
            }
            i = j;
        }
    }
    assert(toks@ =~= toks@ + tokens_from(text@, i as int));
    toks
}

/// The value of a string of decimal digits.
pub open spec fn decimal_value(s: Seq<char>) -> nat
    decreases s.len(),
{
    if s.len() == 0 {
        0
    } else {
        10 * decimal_value(s.drop_last()) + ((s.last() as nat) - ('0' as nat)) as nat
    }
}

pub open spec fn all_digits(s: Seq<char>) -> bool {
    forall|k: int| 0 <= k < s.len() ==> '0' <= #[trigger] s[k] && s[k] <= '9'
}

/// Reads a tag: a nonempty run of decimal digits whose value fits in `i32`.
pub fn parse_tag(w: &[char]) -> (r: Option<i32>)
    ensures
        r is Some <==> (w@.len() > 0 && all_digits(w@) && decimal_value(w@) <= i32::MAX),
        r matches Some(v) ==> v >= 0 && v as nat == decimal_value(w@),
{
    if w.len() == 0 {
        return None;
    }
    let mut v: i32 = 0;
    let mut i: usize = 0;
    while i < w.len()
        invariant
            i <= w@.len(),
            w@.len() > 0,
            v >= 0,
            all_digits(w@.subrange(0, i as int)),
            v as nat == decimal_value(w@.subrange(0, i as int)),
        decreases w@.len() - i,
    {
        let c = w[i];
        proof {
            assert(w@.subrange(0, i + 1).drop_last() =~= w@.subrange(0, i as int));
        }
        if !('0' <= c && c <= '9') {
            proof {
                assert(!all_digits(w@)) by {
                    assert(w@[i as int] == c);
                }
            }
            return None;
        }
        let d: i32 = (c as u32 - '0' as u32) as i32;
        proof {
            assert(w@.subrange(0, i + 1).last() == c);
            assert(decimal_value(w@.subrange(0, i + 1)) == 10 * v + d);
        }
        if v > (i32::MAX - d) / 10 {
            proof {
                lemma_decimal_monotone(w@, i + 1);
            }
            return None;
        }
        v = 10 * v + d;
        i += 1;
        proof {
            assert(all_digits(w@.subrange(0, i as int))) by {
                assert forall|k: int| 0 <= k < i implies '0' <= #[trigger] w@.subrange(0, i as int)[k]
                    && w@.subrange(0, i as int)[k] <= '9' by {
                    if k < i - 1 {
                        assert(w@.subrange(0, i as int)[k] == w@.subrange(0, i - 1)[k]);
                    }
                }
            }
        }
    }
    assert(w@.subrange(0, w@.len() as int) =~= w@);
    Some(v)
}

/// A digit string is worth at least as much as any of its prefixes.
proof fn lemma_decimal_monotone(w: Seq<char>, i: int)
    requires
        0 <= i <= w.len(),
        all_digits(w.subrange(0, i)) ==> true,
    ensures
        all_digits(w) ==> decimal_value(w.subrange(0, i)) <= decimal_value(w),
    decreases w.len() - i,
{
    if i < w.len() && all_digits(w) {
        lemma_decimal_monotone(w, i + 1);
        assert(w.subrange(0, i + 1).drop_last() =~= w.subrange(0, i));
        assert(w.subrange(0, i + 1).last() == w[i]);
    } else if i == w.len() {
        assert(w.subrange(0, i) =~= w);
    }
}

} // verus!

verus! {

/// The index of the child of `parent` named `name`, if there is one.
pub fn find_child(s: &Schema, parent: Option<usize>, name: &String) -> (r: Option<usize>)
    ensures
        r matches Some(i) ==> i < s.scopes@.len() && s.scopes@[i as int].parent == parent
            && s.scopes@[i as int].name@ == name@,
        r is None ==> forall|i: int|
            0 <= i < s.scopes@.len() ==> !(#[trigger] s.scopes@[i].parent == parent
                && s.scopes@[i].name@ == name@),
{
    let mut i: usize = 0;
    while i < s.scopes.len()
        invariant
            i <= s.scopes@.len(),
            forall|k: int|
                0 <= k < i ==> !(#[trigger] s.scopes@[k].parent == parent && s.scopes@[k].name@
                    == name@),
        decreases s.scopes@.len() - i,
    {
        if s.scopes[i].parent == parent && s.scopes[i].name == *name {
            return Some(i);
        }
        i += 1;
    }
    None
}

/// The scope whose tag space the fields of `x` use.
fn numbering_of(s: &Schema, x: usize) -> (r: usize)
    requires
        links_valid(s),
        x < s.scopes@.len(),
    ensures
        r == numbering_scope(s, x as int),
        r < s.scopes@.len(),
{
    match s.scopes[x].parent {
        Some(p) => {
            if s.scopes[x].kind == KindOf::OneOf {
                p
            } else {
                x
            }
        },
        None => x,
    }
}

/// Whether a field of the tag space of `x` already uses `tag`.
pub fn tag_taken(s: &Schema, x: usize, tag: i32) -> (r: bool)
    requires
        links_valid(s),
        x < s.scopes@.len(),
    ensures
        r == exists|f: int|
            0 <= f < s.fields@.len() && numbering_scope(s, #[trigger] s.fields@[f].owner as int)
                == numbering_scope(s, x as int) && s.fields@[f].tag == tag,
{
    let target = numbering_of(s, x);
    let mut f: usize = 0;
    while f < s.fields.len()
        invariant
            links_valid(s),
            target == numbering_scope(s, x as int),
            f <= s.fields@.len(),
            forall|g: int|
                0 <= g < f ==> !(numbering_scope(s, #[trigger] s.fields@[g].owner as int)
                    == target && s.fields@[g].tag == tag),
        decreases s.fields@.len() - f,
    {
        let o = s.fields[f].owner;
        if numbering_of(s, o) == target && s.fields[f].tag == tag {
            return true;
        }
        f += 1;
    }
    false
}

/// Opens a new scope under `parent`. Fails, leaving the schema as it was,
/// when `parent` already has a child of that name.
pub fn add_scope(s: &mut Schema, parent: Option<usize>, name: String, kind: KindOf) -> (r: Result<
    usize,
    SchemaError,
>)
    requires
        schema_wf(old(s)),
        match parent {
            Some(p) => p < old(s).scopes@.len() && old(s).scopes@[p as int].kind != KindOf::Enum && (
            kind == KindOf::OneOf ==> old(s).scopes@[p as int].kind == KindOf::Message),
            None => kind != KindOf::OneOf,
        },
    ensures
        schema_wf(final(s)),
        final(s).fields@ == old(s).fields@,
        final(s).version == old(s).version,
        r is Err <==> exists|i: int|
            0 <= i < old(s).scopes@.len() && #[trigger] old(s).scopes@[i].parent == parent
                && old(s).scopes@[i].name@ == name@,
        r is Err ==> r == Err::<usize, SchemaError>(SchemaError::DuplicateName) && final(s).scopes@
            == old(s).scopes@,
        r matches Ok(idx) ==> idx == old(s).scopes@.len() && final(s).scopes@.len() == idx + 1
            && final(s).scopes@.subrange(0, idx as int) == old(s).scopes@ && final(s).scopes@[idx as int].parent == parent && final(s).scopes@[idx as int].name@ == name@
            && final(s).scopes@[idx as int].kind == kind,
{
    if let Some(_) = find_child(s, parent, &name) {
        return Err(SchemaError::DuplicateName);
    }
    let idx = s.scopes.len();
    let ghost before = *s;
    s.scopes.push(Scope { name, parent, kind });
    proof {
        assert(s.scopes@.subrange(0, idx as int) =~= before.scopes@);
        assert forall|i: int| 0 <= i < idx implies numbering_scope(s, i) == numbering_scope(
            &before,
            i,
        ) by {
            assert(s.scopes@[i] == before.scopes@[i]);
        }
        assert(links_valid(s)) by {
            assert forall|i: int| 0 <= i < s.scopes@.len() implies match #[trigger] s.scopes@[i].parent {
                Some(p) => p < i && s.scopes@[p as int].kind != KindOf::Enum && (s.scopes@[i].kind
                    == KindOf::OneOf ==> s.scopes@[p as int].kind == KindOf::Message),
                None => s.scopes@[i].kind != KindOf::OneOf,
            } by {
                if i < idx {
                    assert(s.scopes@[i] == before.scopes@[i]);
                    if let Some(p) = before.scopes@[i].parent {
                        assert(s.scopes@[p as int] == before.scopes@[p as int]);
                    }
                } else if let Some(p) = parent {
                    assert(s.scopes@[p as int] == before.scopes@[p as int]);
                }
            }
        }
        assert(tags_unique(s)) by {
            assert forall|i: int, j: int|
                0 <= i < j < s.fields@.len() && numbering_scope(s, s.fields@[i].owner as int)
                    == numbering_scope(s, s.fields@[j].owner as int) implies s.fields@[i].tag
                != s.fields@[j].tag by {
                assert(numbering_scope(s, s.fields@[i].owner as int) == numbering_scope(
                    &before,
                    before.fields@[i].owner as int,
                ));
                assert(numbering_scope(s, s.fields@[j].owner as int) == numbering_scope(
                    &before,
                    before.fields@[j].owner as int,
                ));
            }
        }
        assert(names_unique(s)) by {
            assert forall|i: int, j: int|
                0 <= i < j < s.scopes@.len() && s.scopes@[i].parent == s.scopes@[j].parent
                    implies s.scopes@[i].name@ != s.scopes@[j].name@ by {
                assert(s.scopes@[i] == before.scopes@[i]);
                if j < idx {
                    assert(s.scopes@[j] == before.scopes@[j]);
                }
            }
        }
    }
    Ok(idx)
}

/// Adds a field to scope `owner`. Fails, leaving the schema as it was, when
/// the tag is already used in the owner's tag space.
pub fn add_field(s: &mut Schema, owner: usize, tag: i32, attribute: ProtoAttribute) -> (r: Result<
    (),
    SchemaError,
>)
    requires
        schema_wf(old(s)),
        owner < old(s).scopes@.len(),
    ensures
        schema_wf(final(s)),
        final(s).scopes@ == old(s).scopes@,
        final(s).version == old(s).version,
        r is Err <==> exists|f: int|
            0 <= f < old(s).fields@.len() && numbering_scope(
                old(s),
                #[trigger] old(s).fields@[f].owner as int,
            ) == numbering_scope(old(s), owner as int) && old(s).fields@[f].tag == tag,
        r is Err ==> r == Err::<(), SchemaError>(SchemaError::DuplicateTag) && final(s).fields@
            == old(s).fields@,
        r is Ok ==> final(s).fields@.len() == old(s).fields@.len() + 1 && final(s).fields@.subrange(
            0,
            old(s).fields@.len() as int,
        ) == old(s).fields@ && final(s).fields@.last().owner == owner && final(s).fields@.last().tag
            == tag && final(s).fields@.last().attribute@ == attribute@,
{
    if tag_taken(s, owner, tag) {
        return Err(SchemaError::DuplicateTag);
    }
    let ghost before = *s;
    let n = s.fields.len();
    s.fields.push(FieldEntry { owner, tag, attribute });
    proof {
        assert(s.fields@.subrange(0, n as int) =~= before.fields@);
        assert(tags_unique(s)) by {
            assert forall|i: int, j: int|
                0 <= i < j < s.fields@.len() && numbering_scope(s, s.fields@[i].owner as int)
                    == numbering_scope(s, s.fields@[j].owner as int) implies s.fields@[i].tag
                != s.fields@[j].tag by {
                assert(s.fields@[i] == before.fields@[i]);
                if j < n {
                    assert(s.fields@[j] == before.fields@[j]);
                }
            }
        }
        assert(links_valid(s)) by {
            assert forall|f: int| 0 <= f < s.fields@.len() implies #[trigger] s.fields@[f].owner
                < s.scopes@.len() by {
                if f < n {
                    assert(s.fields@[f] == before.fields@[f]);
                }
            }
        }
    }
    Ok(())
}

} // verus!

verus! {

/// What a token is, for the statement reader.
#[derive(Debug, Clone, Copy, PartialEq, Eq, Structural)]
pub enum Word {
    Message,
    OneOf,
    Enum,
    Syntax,
    MapLabel,
    Skipped,
    Open,
    Close,
    Semicolon,
    Equals,
    Less,
    Name,
    Punct,
}

/// Every character of `w` is a word character.
pub open spec fn all_word_chars(w: Seq<char>) -> bool {
    forall|k: int| 0 <= k < w.len() ==> is_word_char(#[trigger] w[k])
}

/// The class of a token.
pub open spec fn word_class(w: Seq<char>) -> Word {
    if w.len() == 1 && !is_word_char(w[0]) {
        if w[0] == '{' {
            Word::Open
        } else if w[0] == '}' {
            Word::Close
        } else if w[0] == ';' {
            Word::Semicolon
        } else if w[0] == '=' {
            Word::Equals
        } else if w[0] == '<' {
            Word::Less
        } else {
            Word::Punct
        }
    } else if !all_word_chars(w) {
        Word::Punct
    } else if w == seq!['m', 'e', 's', 's', 'a', 'g', 'e'] {
        Word::Message
    } else if w == seq!['o', 'n', 'e', 'o', 'f'] {
        Word::OneOf
    } else if w == seq!['e', 'n', 'u', 'm'] {
        Word::Enum
    } else if w == seq!['s', 'y', 'n', 't', 'a', 'x'] {
        Word::Syntax
    } else if w == seq!['m', 'a', 'p'] {
        Word::MapLabel
    } else if w == seq!['p', 'a', 'c', 'k', 'a', 'g', 'e'] || w == seq!['i', 'm', 'p', 'o', 'r', 't']
        || w == seq!['o', 'p', 't', 'i', 'o', 'n'] || w == seq!['r', 'e', 's', 'e', 'r', 'v', 'e', 'd']
        || w == seq!['e', 'x', 't', 'e', 'n', 's', 'i', 'o', 'n', 's'] || w == seq![
        's',
        'e',
        'r',
        'v',
        'i',
        'c',
        'e',
    ] || w == seq!['e', 'x', 't', 'e', 'n', 'd'] {
        Word::Skipped
    } else {
        Word::Name
    }
}

/// The index after the statement whose remaining tokens start at `j`, at
/// brace depth `depth`: past the next `;` at depth 0, or past the `}` that
/// closes the first block.
pub open spec fn skip_from(words: Seq<Word>, j: int, depth: int) -> int
    decreases words.len() - j,
{
    if j < 0 || j >= words.len() {
        words.len() as int
    } else if words[j] == Word::Open {
        skip_from(words, j + 1, depth + 1)
    } else if words[j] == Word::Close {
        if depth <= 1 {
            j + 1
        } else {
            skip_from(words, j + 1, depth - 1)
        }
    } else if words[j] == Word::Semicolon && depth == 0 {
        j + 1
    } else {
        skip_from(words, j + 1, depth)
    }
}

proof fn lemma_skip_bounds(words: Seq<Word>, j: int, depth: int)
    requires
        0 <= j < words.len(),
    ensures
        j < skip_from(words, j, depth) <= words.len(),
    decreases words.len() - j,
{
    if j + 1 < words.len() {
        lemma_skip_bounds(words, j + 1, depth + 1);
        lemma_skip_bounds(words, j + 1, depth - 1);
        lemma_skip_bounds(words, j + 1, depth);
    } else {
        assert(skip_from(words, j + 1, depth + 1) == words.len());
        assert(skip_from(words, j + 1, depth - 1) == words.len());
        assert(skip_from(words, j + 1, depth) == words.len());
    }
}

fn is_lit(w: &[char], lit: Vec<char>) -> (r: bool)
    ensures
        r == (w@ == lit@),
{
    chars_eq(w, lit.as_slice())
}

/// Classifies one token.
fn classify(w: &[char]) -> (r: Word)
    requires
        w@.len() > 0,
    ensures
        r == word_class(w@),
{
    if w.len() == 1 && !word_char(w[0]) {
        let c = w[0];
        proof {
            assert(w@ == seq![c]);
        }
        return if c == '{' {
            Word::Open
        } else if c == '}' {
            Word::Close
        } else if c == ';' {
            Word::Semicolon
        } else if c == '=' {
            Word::Equals
        } else if c == '<' {
            Word::Less
        } else {
            Word::Punct
        };
    }
    let mut k: usize = 0;
    while k < w.len()
        invariant
            k <= w@.len(),
            w@.len() == 1 ==> is_word_char(w@[0]),
            forall|j: int| 0 <= j < k ==> is_word_char(#[trigger] w@[j]),
        decreases w@.len() - k,
    {
        if !word_char(w[k]) {
            proof {
                assert(!all_word_chars(w@));
            }
            return Word::Punct;
        }
        k += 1;
    }
    proof {
        if w@.len() == 1 {
            assert(is_word_char(w@[0]));
        }
    }
    if is_lit(w, vec!['m', 'e', 's', 's', 'a', 'g', 'e']) {
        Word::Message
    } else if is_lit(w, vec!['o', 'n', 'e', 'o', 'f']) {
        Word::OneOf
    } else if is_lit(w, vec!['e', 'n', 'u', 'm']) {
        Word::Enum
    } else if is_lit(w, vec!['s', 'y', 'n', 't', 'a', 'x']) {
        Word::Syntax
    } else if is_lit(w, vec!['m', 'a', 'p']) {
        Word::MapLabel
    } else if is_lit(w, vec!['p', 'a', 'c', 'k', 'a', 'g', 'e']) || is_lit(
        w,
        vec!['i', 'm', 'p', 'o', 'r', 't'],
    ) || is_lit(w, vec!['o', 'p', 't', 'i', 'o', 'n']) || is_lit(
        w,
        vec!['r', 'e', 's', 'e', 'r', 'v', 'e', 'd'],
    ) || is_lit(w, vec!['e', 'x', 't', 'e', 'n', 's', 'i', 'o', 'n', 's']) || is_lit(
        w,
        vec!['s', 'e', 'r', 'v', 'i', 'c', 'e'],
    ) || is_lit(w, vec!['e', 'x', 't', 'e', 'n', 'd']) {
        Word::Skipped
    } else {
        Word::Name
    }
}

/// The index of the token after the statement that starts at `i`: past the
/// next `;`, or past the block when a `{` comes first.
fn skip_statement(words: &Vec<Word>, i: usize) -> (j: usize)
    requires
        i < words@.len(),
    ensures
        j == skip_from(words@, i as int, 0),
        i < j <= words@.len(),
{
    proof {
        lemma_skip_bounds(words@, i as int, 0);
    }
    let n = words.len();
    let mut j = i;
    let mut depth: usize = 0;
    while j < n
        invariant
            n == words@.len(),
            i <= j <= n,
            depth <= j - i,
            skip_from(words@, j as int, depth as int) == skip_from(words@, i as int, 0),
        decreases n - j,
    {
        let w = words[j];
        j += 1;
        if w == Word::Open {
            depth = depth + 1;
        } else if w == Word::Close {
            if depth <= 1 {
                return j;
            }
            depth -= 1;
        } else if w == Word::Semicolon && depth == 0 {
            return j;
        }
    }
    n
}

} // verus!

verus! {

/// A scope as the parser tracks it: name, parent, kind.
pub type ScopeView = (Seq<char>, Option<usize>, KindOf);

/// A field as the parser tracks it: owner, tag, attribute.
pub type FieldView = (usize, i32, (ProtoAnnotation, Seq<char>, Seq<char>));

/// What the parser has read so far: version, scopes, fields.
pub type SchemaView = (u32, Seq<ScopeView>, Seq<FieldView>);

pub open spec fn schema_view(s: &Schema) -> SchemaView {
    (
        s.version,
        s.scopes@.map_values(|x: Scope| (x.name@, x.parent, x.kind)),
        s.fields@.map_values(|f: FieldEntry| (f.owner, f.tag, f.attribute@)),
    )
}

/// The characters of token `k`.
pub open spec fn tok(text: Seq<char>, toks: Seq<(usize, usize)>, k: int) -> Seq<char> {
    text.subrange(toks[k].0 as int, toks[k].1 as int)
}

/// The class of every token.
pub open spec fn words_of(text: Seq<char>, toks: Seq<(usize, usize)>) -> Seq<Word> {
    Seq::new(toks.len(), |k: int| word_class(tok(text, toks, k)))
}

/// The tag that a token spells, if it is one.
pub open spec fn tag_value(w: Seq<char>) -> Option<i32> {
    if w.len() > 0 && all_digits(w) && decimal_value(w) <= i32::MAX {
        Some(decimal_value(w) as i32)
    } else {
        None
    }
}

/// The version that a `syntax` value names.
pub open spec fn version_of(v: Seq<char>) -> u32 {
    if v.contains('3') {
        3
    } else {
        2
    }
}

pub open spec fn numbering_v(sc: Seq<ScopeView>, x: int) -> int {
    if sc[x].2 == KindOf::OneOf && sc[x].1 is Some {
        sc[x].1->Some_0 as int
    } else {
        x
    }
}

/// A field of the tag space of `owner` already uses `tag`.
pub open spec fn tag_used(st: SchemaView, owner: int, tag: i32) -> bool {
    exists|f: int|
        0 <= f < st.2.len() && numbering_v(st.1, #[trigger] st.2[f].0 as int) == numbering_v(st.1, owner)
            && st.2[f].1 == tag
}

/// Adds a field, unless its tag is taken.
pub open spec fn add_field_v(
    st: SchemaView,
    owner: usize,
    tag: i32,
    attr: (ProtoAnnotation, Seq<char>, Seq<char>),
) -> Result<SchemaView, SchemaError> {
    if tag_used(st, owner as int, tag) {
        Err(SchemaError::DuplicateTag)
    } else {
        Ok((st.0, st.1, st.2.push((owner, tag, attr))))
    }
}

/// Where the label, type and name of a field statement are: the label,
/// the index of the type token and the index of the name token.
pub open spec fn field_layout(text: Seq<char>, toks: Seq<(usize, usize)>, words: Seq<Word>, i: int) -> Result<
    (ProtoAnnotation, int, int),
    SchemaError,
> {
    let n = toks.len();
    if words[i] == Word::MapLabel && n - i > 1 && words[i + 1] == Word::Less {
        if !(n - i > 8 && words[i + 6] == Word::Name && words[i + 7] == Word::Equals) {
            Err(SchemaError::Unexpected)
        } else {
            Ok((ProtoAnnotation::Mapped, i + 4, i + 6))
        }
    } else if n - i > 3 && words[i + 2] == Word::Equals {
        Ok((ProtoAnnotation::Optional, i, i + 1))
    } else if n - i > 4 && words[i + 3] == Word::Equals {
        match annotation_of(tok(text, toks, i)) {
            Some(a) => Ok((a, i + 1, i + 2)),
            None => Err(SchemaError::UnknownAnnotation),
        }
    } else {
        Err(SchemaError::Unexpected)
    }
}

/// Reads the enum constant statement `NAME = N ...;` at token `i` into
/// enum `owner`.
pub open spec fn enum_const_step(
    text: Seq<char>,
    toks: Seq<(usize, usize)>,
    words: Seq<Word>,
    st: SchemaView,
    owner: usize,
    i: int,
) -> Result<(SchemaView, int), SchemaError> {
    let n = toks.len();
    if !(n - i > 2 && words[i] == Word::Name && words[i + 1] == Word::Equals) {
        Err(SchemaError::Unexpected)
    } else {
        match tag_value(tok(text, toks, i + 2)) {
            None => Err(SchemaError::MalformedTag),
            Some(t) => match add_field_v(st, owner, t, (ProtoAnnotation::Optional, tok(text, toks, i), tok(text, toks, i))) {
                Err(e) => Err(e),
                Ok(st2) => Ok((st2, skip_from(words, i, 0))),
            },
        }
    }
}

/// Reads the field statement at token `i` into message or oneof `owner`.
pub open spec fn field_line_step(
    text: Seq<char>,
    toks: Seq<(usize, usize)>,
    words: Seq<Word>,
    st: SchemaView,
    owner: usize,
    i: int,
) -> Result<(SchemaView, int), SchemaError> {
    match field_layout(text, toks, words, i) {
        Err(e) => Err(e),
        Ok((a, t, nm)) => match tag_value(tok(text, toks, nm + 2)) {
            None => Err(SchemaError::MalformedTag),
            Some(tag) => if tag <= 0 {
                Err(SchemaError::MalformedTag)
            } else {
                match add_field_v(st, owner, tag, (a, tok(text, toks, nm), tok(text, toks, t))) {
                    Err(e) => Err(e),
                    Ok(st2) => Ok((st2, skip_from(words, nm + 2, 0))),
                }
            },
        },
    }
}

/// Reads the field (or enum constant) statement at token `i` into scope
/// `owner`: the new state and the index after the statement.
pub open spec fn field_step(
    text: Seq<char>,
    toks: Seq<(usize, usize)>,
    words: Seq<Word>,
    st: SchemaView,
    owner: usize,
    i: int,
) -> Result<(SchemaView, int), SchemaError> {
    if st.1[owner as int].2 == KindOf::Enum {
        enum_const_step(text, toks, words, st, owner, i)
    } else {
        field_line_step(text, toks, words, st, owner, i)
    }
}

/// The kind and the enclosing scope of the scope that `message|oneof|enum
/// NAME {` at token `i` opens, or why it cannot be opened there.
pub open spec fn scope_header(words: Seq<Word>, n: int, st: SchemaView, stack: Seq<usize>, i: int) -> Result<
    (KindOf, Option<usize>),
    SchemaError,
> {
    if !(n - i > 2 && words[i + 1] == Word::Name && words[i + 2] == Word::Open) {
        Err(SchemaError::Unexpected)
    } else {
        let kind = if words[i] == Word::Message {
            KindOf::Message
        } else if words[i] == Word::OneOf {
            KindOf::OneOf
        } else {
            KindOf::Enum
        };
        let top = if stack.len() > 0 {
            Some(stack.last())
        } else {
            None::<usize>
        };
        let allowed = match top {
            Some(p) => st.1[p as int].2 == KindOf::Message,
            None => kind != KindOf::OneOf,
        };
        if !allowed {
            Err(SchemaError::Unexpected)
        } else {
            Ok((kind, top))
        }
    }
}

/// Reads `message|oneof|enum NAME {` at token `i`: opens the scope inside
/// the innermost open one (the last of `stack`).
pub open spec fn scope_step(
    text: Seq<char>,
    toks: Seq<(usize, usize)>,
    words: Seq<Word>,
    st: SchemaView,
    stack: Seq<usize>,
    i: int,
) -> Result<(SchemaView, Seq<usize>, int), SchemaError> {
    match scope_header(words, toks.len() as int, st, stack, i) {
        Err(e) => Err(e),
        Ok((kind, top)) => {
            let name = tok(text, toks, i + 1);
            if exists|x: int| 0 <= x < st.1.len() && #[trigger] st.1[x].1 == top && st.1[x].0 == name {
                Err(SchemaError::DuplicateName)
            } else {
                Ok(((st.0, st.1.push((name, top, kind)), st.2), stack.push(st.1.len() as usize), i + 3))
            }
        },
    }
}

/// Reads the statements from token `i` on, with `st` read so far and the
/// scopes of `stack` open.
pub open spec fn parse_walk(
    text: Seq<char>,
    toks: Seq<(usize, usize)>,
    words: Seq<Word>,
    i: int,
    st: SchemaView,
    stack: Seq<usize>,
) -> Result<SchemaView, SchemaError>
    decreases toks.len() - i,
{
    let n = toks.len();
    if i < 0 || i >= n {
        if stack.len() > 0 {
            Err(SchemaError::Unterminated)
        } else {
            Ok(st)
        }
    } else {
        let w = words[i];
        if w == Word::Close {
            if stack.len() == 0 {
                Err(SchemaError::Unexpected)
            } else {
                parse_walk(text, toks, words, i + 1, st, stack.drop_last())
            }
        } else if w == Word::Syntax {
            let st2 = if n - i > 2 && words[i + 1] == Word::Equals {
                (version_of(tok(text, toks, i + 2)), st.1, st.2)
            } else {
                st
            };
            let j = skip_from(words, i, 0);
            if j <= i || j > n {
                Err(SchemaError::Unexpected)
            } else {
                parse_walk(text, toks, words, j, st2, stack)
            }
        } else if w == Word::Message || w == Word::OneOf || w == Word::Enum {
            match scope_step(text, toks, words, st, stack, i) {
                Err(e) => Err(e),
                Ok((st2, stack2, j)) => if j <= i || j > n {
                    Err(SchemaError::Unexpected)
                } else {
                    parse_walk(text, toks, words, j, st2, stack2)
                },
            }
        } else if w == Word::Semicolon || w == Word::Skipped || stack.len() == 0 {
            let j = skip_from(words, i, 0);
            if j <= i || j > n {
                Err(SchemaError::Unexpected)
            } else {
                parse_walk(text, toks, words, j, st, stack)
            }
        } else {
            match field_step(text, toks, words, st, stack.last(), i) {
                Err(e) => Err(e),
                Ok((st2, j)) => if j <= i || j > n {
                    Err(SchemaError::Unexpected)
                } else {
                    parse_walk(text, toks, words, j, st2, stack)
                },
            }
        }
    }
}

/// The schema that a text describes, or the error that reading it meets.
pub open spec fn parse_schema(text: Seq<char>) -> Result<SchemaView, SchemaError> {
    let toks = tokens_from(text, 0);
    parse_walk(text, toks, words_of(text, toks), 0, (2, Seq::empty(), Seq::empty()), Seq::empty())
}


proof fn lemma_numbering_view(s: &Schema, x: int)
    requires
        0 <= x < s.scopes@.len(),
    ensures
        numbering_v(schema_view(s).1, x) == numbering_scope(s, x),
{
    assert(schema_view(s).1[x] == (s.scopes@[x].name@, s.scopes@[x].parent, s.scopes@[x].kind));
}

proof fn lemma_tag_used_view(s: &Schema, owner: usize, tag: i32)
    requires
        links_valid(s),
        owner < s.scopes@.len(),
    ensures
        tag_used(schema_view(s), owner as int, tag) <==> exists|f: int|
            0 <= f < s.fields@.len() && numbering_scope(s, #[trigger] s.fields@[f].owner as int)
                == numbering_scope(s, owner as int) && s.fields@[f].tag == tag,
{
    lemma_numbering_view(s, owner as int);
    let v = schema_view(s);
    if tag_used(v, owner as int, tag) {
        let f = choose|f: int|
            0 <= f < v.2.len() && numbering_v(v.1, #[trigger] v.2[f].0 as int) == numbering_v(v.1, owner as int)
                && v.2[f].1 == tag;
        assert(v.2[f] == (s.fields@[f].owner, s.fields@[f].tag, s.fields@[f].attribute@));
        assert(s.fields@[f].owner < s.scopes@.len());
        lemma_numbering_view(s, s.fields@[f].owner as int);
        assert(numbering_scope(s, s.fields@[f].owner as int) == numbering_scope(s, owner as int));
    }
    if exists|f: int|
        0 <= f < s.fields@.len() && numbering_scope(s, #[trigger] s.fields@[f].owner as int)
            == numbering_scope(s, owner as int) && s.fields@[f].tag == tag {
        let f = choose|f: int|
            0 <= f < s.fields@.len() && numbering_scope(s, #[trigger] s.fields@[f].owner as int)
                == numbering_scope(s, owner as int) && s.fields@[f].tag == tag;
        assert(v.2[f] == (s.fields@[f].owner, s.fields@[f].tag, s.fields@[f].attribute@));
        assert(s.fields@[f].owner < s.scopes@.len());
        lemma_numbering_view(s, s.fields@[f].owner as int);
        assert(numbering_v(v.1, v.2[f].0 as int) == numbering_v(v.1, owner as int) && v.2[f].1 == tag);
    }
}

/// What `add_field` does, in terms of the schema's view.
fn add_field_viewed(s: &mut Schema, owner: usize, tag: i32, attribute: ProtoAttribute) -> (r: Result<(), SchemaError>)
    requires
        schema_wf(old(s)),
        owner < old(s).scopes@.len(),
    ensures
        schema_wf(final(s)),
        final(s).scopes@ == old(s).scopes@,
        final(s).version == old(s).version,
        add_field_v(schema_view(old(s)), owner, tag, attribute@) == match r {
            Ok(_) => Ok::<SchemaView, SchemaError>(schema_view(final(s))),
            Err(e) => Err(e),
        },
{
    let ghost before = *s;
    let ghost a = attribute@;
    proof {
        lemma_tag_used_view(s, owner, tag);
    }
    let r = add_field(s, owner, tag, attribute);
    proof {
        if r is Ok {
            assert(s.fields@ =~= before.fields@.push(s.fields@.last()));
            assert(schema_view(s).2 =~= schema_view(&before).2.push((owner, tag, a)));
            assert(schema_view(s).1 =~= schema_view(&before).1);
        }
    }
    r
}

/// What `add_scope` does, in terms of the schema's view.
fn add_scope_viewed(s: &mut Schema, parent: Option<usize>, name: String, kind: KindOf) -> (r: Result<usize, SchemaError>)
    requires
        schema_wf(old(s)),
        match parent {
            Some(p) => p < old(s).scopes@.len() && old(s).scopes@[p as int].kind != KindOf::Enum && (
            kind == KindOf::OneOf ==> old(s).scopes@[p as int].kind == KindOf::Message),
            None => kind != KindOf::OneOf,
        },
    ensures
        schema_wf(final(s)),
        final(s).version == old(s).version,
        final(s).scopes@.len() >= old(s).scopes@.len(),
        r is Err <==> exists|x: int|
            0 <= x < schema_view(old(s)).1.len() && #[trigger] schema_view(old(s)).1[x].1 == parent
                && schema_view(old(s)).1[x].0 == name@,
        r matches Err(e) ==> e == SchemaError::DuplicateName && schema_view(final(s)) == schema_view(old(s)),
        r matches Ok(idx) ==> idx == old(s).scopes@.len() && idx < final(s).scopes@.len() && schema_view(final(s)) == (
            old(s).version,
            schema_view(old(s)).1.push((name@, parent, kind)),
            schema_view(old(s)).2,
        ),
{
    let ghost before = *s;
    let ghost nm = name@;
    let ghost v = schema_view(s);
    proof {
        assert forall|x: int| 0 <= x < v.1.len() implies #[trigger] v.1[x] == (before.scopes@[x].name@, before.scopes@[x].parent, before.scopes@[x].kind) by {}
    }
    let r = add_scope(s, parent, name, kind);
    proof {
        if r is Ok {
            assert(s.scopes@ =~= before.scopes@.push(s.scopes@.last()));
            assert(schema_view(s).1 =~= v.1.push((nm, parent, kind)));
            assert(schema_view(s).2 =~= v.2);
        } else {
            assert(schema_view(s).1 =~= v.1);
        }
        if exists|x: int| 0 <= x < v.1.len() && #[trigger] v.1[x].1 == parent && v.1[x].0 == nm {
            let x = choose|x: int| 0 <= x < v.1.len() && #[trigger] v.1[x].1 == parent && v.1[x].0 == nm;
            assert(before.scopes@[x].parent == parent && before.scopes@[x].name@ == nm);
        }
        if exists|x: int| 0 <= x < before.scopes@.len() && #[trigger] before.scopes@[x].parent == parent && before.scopes@[x].name@ == nm {
            let x = choose|x: int| 0 <= x < before.scopes@.len() && #[trigger] before.scopes@[x].parent == parent && before.scopes@[x].name@ == nm;
            assert(v.1[x].1 == parent && v.1[x].0 == nm);
        }
    }
    r
}

/// The characters of token `k`.
fn token<'a>(text: &'a Vec<char>, toks: &Vec<(usize, usize)>, k: usize) -> (r: &'a [char])
    requires
        tokens_wf(text@, toks@),
        k < toks@.len(),
    ensures
        r@ == text@.subrange(toks@[k as int].0 as int, toks@[k as int].1 as int),
        r@.len() > 0,
{
    let (a, b) = toks[k];
    slice_subrange(text.as_slice(), a, b)
}

fn read_layout(text: &Vec<char>, toks: &Vec<(usize, usize)>, words: &Vec<Word>, i: usize) -> (r: Result<
    (ProtoAnnotation, usize, usize),
    SchemaError,
>)
    requires
        tokens_wf(text@, toks@),
        toks@.len() == words@.len(),
        i < toks@.len(),
    ensures
        r matches Ok((a, t, nm)) ==> field_layout(text@, toks@, words@, i as int) == Ok::<(ProtoAnnotation, int, int), SchemaError>((a, t as int, nm as int))
            && t < toks@.len() && nm + 2 < toks@.len(),
        r matches Err(e) ==> field_layout(text@, toks@, words@, i as int) == Err::<(ProtoAnnotation, int, int), SchemaError>(e),
{
    let n = toks.len();
    let w = words[i];
    if w == Word::MapLabel && n - i > 1 && words[i + 1] == Word::Less {
        if !(n - i > 8 && words[i + 6] == Word::Name && words[i + 7] == Word::Equals) {
            return Err(SchemaError::Unexpected);
        }
        Ok((ProtoAnnotation::Mapped, i + 4, i + 6))
    } else if n - i > 3 && words[i + 2] == Word::Equals {
        Ok((ProtoAnnotation::Optional, i, i + 1))
    } else if n - i > 4 && words[i + 3] == Word::Equals {
        match ProtoAnnotation::from_word(token(text, toks, i)) {
            Ok(a) => Ok((a, i + 1, i + 2)),
            Err(_) => Err(SchemaError::UnknownAnnotation),
        }
    } else {
        Err(SchemaError::Unexpected)
    }
}

/// Reads the enum constant statement `NAME = N ...;` at token `i`.
#[verifier::spinoff_prover]
#[verifier::rlimit(100)]
fn read_enum_constant(
    text: &Vec<char>,
    toks: &Vec<(usize, usize)>,
    words: &Vec<Word>,
    s: &mut Schema,
    owner: usize,
    i: usize,
) -> (r: Result<usize, SchemaError>)
    requires
        tokens_wf(text@, toks@),
        toks@.len() == words@.len(),
        i < toks@.len(),
        schema_wf(old(s)),
        owner < old(s).scopes@.len(),
    ensures
        schema_wf(final(s)),
        final(s).scopes@ == old(s).scopes@,
        final(s).version == old(s).version,
        r matches Ok(j) ==> i < j <= toks@.len(),
        enum_const_step(text@, toks@, words@, schema_view(old(s)), owner, i as int) == match r {
            Ok(j) => Ok::<(SchemaView, int), SchemaError>((schema_view(final(s)), j as int)),
            Err(e) => Err(e),
        },
{
    let n = toks.len();
    if !(n - i > 2 && words[i] == Word::Name && words[i + 1] == Word::Equals) {
        return Err(SchemaError::Unexpected);
    }
    let tw = token(text, toks, i + 2);
    let tag = match parse_tag(tw) {
        Some(t) => t,
        None => {
            return Err(SchemaError::MalformedTag);
        },
    };
    assert(tw@ == tok(text@, toks@, i + 2));
    assert(decimal_value(tw@) as i32 == tag);
    let name_chars = token(text, toks, i);
    let attribute = ProtoAttribute {
        annotation: ProtoAnnotation::Optional,
        attribute_name: string_of(name_chars),
        attribute_type: string_of(name_chars),
    };
    assert(attribute@ == (ProtoAnnotation::Optional, tok(text@, toks@, i as int), tok(text@, toks@, i as int)));
    let added = add_field_viewed(s, owner, tag, attribute);
    match added {
        Ok(_) => {},
        Err(e) => {
            return Err(e);
        },
    }
    Ok(skip_statement(words, i))
}

/// Reads the field statement `[label] type name = tag ...;` (or
/// `map<K, V> name = tag ...;`) at token `i`.
#[verifier::spinoff_prover]
#[verifier::rlimit(100)]
fn read_field_line(
    text: &Vec<char>,
    toks: &Vec<(usize, usize)>,
    words: &Vec<Word>,
    s: &mut Schema,
    owner: usize,
    i: usize,
) -> (r: Result<usize, SchemaError>)
    requires
        tokens_wf(text@, toks@),
        toks@.len() == words@.len(),
        i < toks@.len(),
        schema_wf(old(s)),
        owner < old(s).scopes@.len(),
    ensures
        schema_wf(final(s)),
        final(s).scopes@ == old(s).scopes@,
        final(s).version == old(s).version,
        r matches Ok(j) ==> i < j <= toks@.len(),
        field_line_step(text@, toks@, words@, schema_view(old(s)), owner, i as int) == match r {
            Ok(j) => Ok::<(SchemaView, int), SchemaError>((schema_view(final(s)), j as int)),
            Err(e) => Err(e),
        },
{
    let _n = toks.len();
    let layout = read_layout(text, toks, words, i);
    let (annotation, type_at, name_at) = match layout {
        Ok(l) => l,
        Err(e) => {
            return Err(e);
        },
    };
    assert(name_at + 2 < toks@.len());
    let tw = token(text, toks, name_at + 2);
    let tag = match parse_tag(tw) {
        Some(t) => t,
        None => {
            return Err(SchemaError::MalformedTag);
        },
    };
    assert(tw@ == tok(text@, toks@, name_at + 2));
    assert(decimal_value(tw@) as i32 == tag);
    if tag <= 0 {
        return Err(SchemaError::MalformedTag);
    }
    let attribute = ProtoAttribute {
        annotation,
        attribute_name: string_of(token(text, toks, name_at)),
        attribute_type: string_of(token(text, toks, type_at)),
    };
    assert(attribute@ == (annotation, tok(text@, toks@, name_at as int), tok(text@, toks@, type_at as int)));
    let added = add_field_viewed(s, owner, tag, attribute);
    match added {
        Ok(_) => {},
        Err(e) => {
            return Err(e);
        },
    }
    Ok(skip_statement(words, name_at + 2))
}

/// Reads the field (or enum constant) statement that starts at token `i`
/// into scope `owner` and returns the index of the token after it.
fn read_field(
    text: &Vec<char>,
    toks: &Vec<(usize, usize)>,
    words: &Vec<Word>,
    s: &mut Schema,
    owner: usize,
    i: usize,
) -> (r: Result<usize, SchemaError>)
    requires
        tokens_wf(text@, toks@),
        toks@.len() == words@.len(),
        i < toks@.len(),
        schema_wf(old(s)),
        owner < old(s).scopes@.len(),
    ensures
        schema_wf(final(s)),
        final(s).scopes@ == old(s).scopes@,
        final(s).version == old(s).version,
        r matches Ok(j) ==> i < j <= toks@.len(),
        field_step(text@, toks@, words@, schema_view(old(s)), owner, i as int) == match r {
            Ok(j) => Ok::<(SchemaView, int), SchemaError>((schema_view(final(s)), j as int)),
            Err(e) => Err(e),
        },
{
    assert(schema_view(s).1[owner as int].2 == s.scopes@[owner as int].kind);
    if s.scopes[owner].kind == KindOf::Enum {
        read_enum_constant(text, toks, words, s, owner, i)
    } else {
        read_field_line(text, toks, words, s, owner, i)
    }
}

/// The version that a `syntax` value names: 3 when it mentions `3`, else 2.
fn syntax_version(v: &[char]) -> (r: u32)
    ensures
        r == version_of(v@),
        r == 2 || r == 3,
{
    let mut c: usize = 0;
    while c < v.len()
        invariant
            c <= v@.len(),
            forall|k: int| 0 <= k < c ==> v@[k] != '3',
        decreases v@.len() - c,
    {
        if v[c] == '3' {
            assert(v@.contains('3')) by {
                assert(v@[c as int] == '3');
            }
            return 3;
        }
        c += 1;
    }
    2
}

/// Checks `message|oneof|enum NAME {` at token `i` and finds the kind of
/// the new scope and the scope that encloses it.
fn scope_header_exec(words: &Vec<Word>, s: &Schema, stack: &Vec<usize>, i: usize) -> (r: Result<
    (KindOf, Option<usize>),
    SchemaError,
>)
    requires
        i < words@.len(),
        forall|j: int| 0 <= j < stack@.len() ==> #[trigger] stack@[j] < s.scopes@.len(),
    ensures
        r == scope_header(words@, words@.len() as int, schema_view(s), stack@, i as int),
        r is Ok ==> i + 2 < words@.len(),
        r matches Ok((kind, top)) ==> match top {
            Some(p) => p < s.scopes@.len() && s.scopes@[p as int].kind == KindOf::Message,
            None => kind != KindOf::OneOf,
        },
{
    let n = words.len();
    let w = words[i];
    if !(n - i > 2 && words[i + 1] == Word::Name && words[i + 2] == Word::Open) {
        return Err(SchemaError::Unexpected);
    }
    let kind = if w == Word::Message {
        KindOf::Message
    } else if w == Word::OneOf {
        KindOf::OneOf
    } else {
        KindOf::Enum
    };
    let top: Option<usize> = if stack.len() > 0 {
        Some(stack[stack.len() - 1])
    } else {
        None
    };
    let allowed = match top {
        Some(p) => s.scopes[p].kind == KindOf::Message,
        None => kind != KindOf::OneOf,
    };
    proof {
        if let Some(p) = top {
            assert(stack@.last() == p);
            assert(schema_view(s).1[p as int].2 == s.scopes@[p as int].kind);
        }
    }
    if !allowed {
        return Err(SchemaError::Unexpected);
    }
    Ok((kind, top))
}

/// Reads `message NAME {`, `oneof NAME {` or `enum NAME {` at token `i`,
/// opens the scope inside the innermost open one, and returns the index
/// of the token after the brace.
fn open_scope(
    text: &Vec<char>,
    toks: &Vec<(usize, usize)>,
    words: &Vec<Word>,
    s: &mut Schema,
    stack: &mut Vec<usize>,
    i: usize,
) -> (r: Result<usize, SchemaError>)
    requires
        tokens_wf(text@, toks@),
        toks@.len() == words@.len(),
        i < toks@.len(),
        schema_wf(old(s)),
        forall|j: int| 0 <= j < old(stack)@.len() ==> #[trigger] old(stack)@[j] < old(s).scopes@.len(),
    ensures
        schema_wf(final(s)),
        final(s).version == old(s).version,
        forall|j: int| 0 <= j < final(stack)@.len() ==> #[trigger] final(stack)@[j] < final(s).scopes@.len(),
        r matches Ok(j) ==> i < j <= toks@.len(),
        scope_step(text@, toks@, words@, schema_view(old(s)), old(stack)@, i as int) == match r {
            Ok(j) => Ok::<(SchemaView, Seq<usize>, int), SchemaError>((schema_view(final(s)), final(stack)@, j as int)),
            Err(e) => Err(e),
        },
{
    let _n = toks.len();
    let (kind, top) = match scope_header_exec(words, s, stack, i) {
        Ok(h) => h,
        Err(e) => {
            return Err(e);
        },
    };
    let tn = token(text, toks, i + 1);
    let name = string_of(tn);
    assert(name@ == tok(text@, toks@, i + 1));
    let added = add_scope_viewed(s, top, name, kind);
    let idx = match added {
        Ok(x) => x,
        Err(e) => {
            return Err(e);
        },
    };
    let ghost before = stack@;
    stack.push(idx);
    proof {
        assert forall|j: int| 0 <= j < stack@.len() implies #[trigger] stack@[j] < s.scopes@.len() by {
            if j < before.len() {
                assert(stack@[j] == before[j]);
            }
        }
    }
    Ok(i + 3)
}

/// Reads a `.proto` schema text: `syntax`, `message`, `oneof` and `enum`
/// declarations, and field lines `[label] type name = tag [options];`
/// (`map<K, V> name = tag;` gives a field labelled map whose type is `V`).
/// Enum constants `NAME = N;` are stored under `N` as optional attributes
/// whose name and type are both `NAME`. Comments, `package`, `import`,
/// `option`, `reserved`, `extensions`, `service` and `extend` statements,
/// and lines of no known shape are skipped. A schema read without error is
/// well formed: in particular tags are unique over each message and all its
/// oneofs together.
pub fn create_struct_from_proto_file(source: &str) -> (r: Result<Schema, SchemaError>)
    ensures
        r matches Ok(s) ==> schema_wf(&s) && (s.version == 2 || s.version == 3) && parse_schema(source@)
            == Ok::<SchemaView, SchemaError>(schema_view(&s)),
        r matches Err(e) ==> parse_schema(source@) == Err::<SchemaView, SchemaError>(e),
{
    let text = chars_of(source);
    let toks = tokenize(&text);
    let n = toks.len();
    let mut words: Vec<Word> = Vec::new();
    let mut k: usize = 0;
    while k < n
        invariant
            n == toks@.len(),
            k <= n,
            tokens_wf(text@, toks@),
            words@.len() == k,
            forall|j: int| 0 <= j < k ==> #[trigger] words@[j] == word_class(tok(text@, toks@, j)),
        decreases n - k,
    {
        let w = token(&text, &toks, k);
        words.push(classify(w));
        k += 1;
    }
    assert(words@ =~= words_of(text@, toks@));
    let mut s = Schema { version: 2, scopes: Vec::new(), fields: Vec::new() };
    let mut stack: Vec<usize> = Vec::new();
    let mut i: usize = 0;
    assert(schema_view(&s) =~~= (2u32, Seq::<ScopeView>::empty(), Seq::<FieldView>::empty()));
    assert(stack@ =~= Seq::<usize>::empty());
    while i < n
        invariant
            n == toks@.len(),
            n == words@.len(),
            i <= n,
            tokens_wf(text@, toks@),
            toks@ == tokens_from(text@, 0),
            words@ == words_of(text@, toks@),
            text@ == source@,
            schema_wf(&s),
            s.version == 2 || s.version == 3,
            forall|j: int| 0 <= j < stack@.len() ==> #[trigger] stack@[j] < s.scopes@.len(),
            parse_walk(text@, toks@, words@, i as int, schema_view(&s), stack@) == parse_schema(source@),
        decreases n - i,
    {
        let w = words[i];
        let top: Option<usize> = if stack.len() > 0 {
            Some(stack[stack.len() - 1])
        } else {
            None
        };
        if w == Word::Close {
            if stack.len() == 0 {
                return Err(SchemaError::Unexpected);
            }
            stack.pop();
            i += 1;
        } else if w == Word::Syntax {
            if n - i > 2 && words[i + 1] == Word::Equals {
                s.version = syntax_version(token(&text, &toks, i + 2));
            }
            i = skip_statement(&words, i);
        } else if w == Word::Message || w == Word::OneOf || w == Word::Enum {
            i = open_scope(&text, &toks, &words, &mut s, &mut stack, i)?;
        } else if w == Word::Semicolon || w == Word::Skipped || top.is_none() {
            i = skip_statement(&words, i);
        } else {
            proof {
                assert(stack@.last() == top.unwrap());
            }
            i = read_field(&text, &toks, &words, &mut s, top.unwrap(), i)?;
        }
    }
    if stack.len() > 0 {
        return Err(SchemaError::Unterminated);
    }
    Ok(s)
}

} // verus!

verus! {

/// The child of `parent` named `name`; unique in a well-formed schema.
pub open spec fn child_of(s: &Schema, parent: Option<usize>, name: Seq<char>) -> Option<usize> {
    if exists|i: int|
        0 <= i < s.scopes@.len() && #[trigger] s.scopes@[i].parent == parent && s.scopes@[i].name@
            == name {
        Some(
            (choose|i: int|
                0 <= i < s.scopes@.len() && #[trigger] s.scopes@[i].parent == parent
                    && s.scopes@[i].name@ == name) as usize,
        )
    } else {
        None
    }
}

/// Follows `path` down from `cur` (`None`: the top level), one child name
/// per step; `None` when a step finds no child.
pub open spec fn walk(s: &Schema, cur: Option<usize>, path: Seq<Seq<char>>) -> Option<Option<usize>>
    decreases path.len(),
{
    if path.len() == 0 {
        Some(cur)
    } else {
        match child_of(s, cur, path[0]) {
            Some(c) => walk(s, Some(c), path.drop_first()),
            None => None,
        }
    }
}

pub open spec fn names_of(path: Seq<String>) -> Seq<Seq<char>> {
    path.map_values(|p: String| p@)
}

fn find_child_exact(s: &Schema, parent: Option<usize>, name: &String) -> (r: Option<usize>)
    requires
        names_unique(s),
    ensures
        r == child_of(s, parent, name@),
        r matches Some(i) ==> i < s.scopes@.len(),
{
    let r = find_child(s, parent, name);
    proof {
        if let Some(i) = r {
            let j = choose|j: int|
                0 <= j < s.scopes@.len() && #[trigger] s.scopes@[j].parent == parent
                    && s.scopes@[j].name@ == name@;
            if i != j {
                if i < j {
                    assert(s.scopes@[i as int].name@ != s.scopes@[j].name@);
                } else {
                    assert(s.scopes@[j].name@ != s.scopes@[i as int].name@);
                }
            }
        }
    }
    r
}

/// Follows `path` down from `start`, returning the scope reached (or
/// `start` itself for an empty path), or `None` when some step finds no
/// child of that name.
pub fn get_correct_level_hashmap(s: &Schema, start: Option<usize>, path: &Vec<String>) -> (r: Option<
    Option<usize>,
>)
    requires
        names_unique(s),
    ensures
        r == walk(s, start, names_of(path@)),
{
    let mut cur = start;
    let mut k: usize = 0;
    assert(names_of(path@).subrange(0, path@.len() as int) =~= names_of(path@));
    while k < path.len()
        invariant
            names_unique(s),
            k <= path@.len(),
            walk(s, start, names_of(path@)) == walk(s, cur, names_of(path@).subrange(
                k as int,
                path@.len() as int,
            )),
        decreases path@.len() - k,
    {
        let ghost rest = names_of(path@).subrange(k as int, path@.len() as int);
        assert(rest[0] == path@[k as int]@);
        assert(rest.drop_first() =~= names_of(path@).subrange(k + 1, path@.len() as int));
        match find_child_exact(s, cur, &path[k]) {
            Some(c) => {
                cur = Some(c);
            },
            None => {
                return None;
            },
        }
        k += 1;
    }
    assert(names_of(path@).subrange(k as int, path@.len() as int).len() == 0);
    Some(cur)
}

/// The scope that the nonempty `path` names from the top level.
pub fn search_message_in_hashmap(s: &Schema, path: &Vec<String>) -> (r: Option<usize>)
    requires
        names_unique(s),
    ensures
        path@.len() > 0 ==> r == match walk(s, None, names_of(path@)) {
            Some(Some(x)) => Some(x),
            _ => None,
        },
        path@.len() == 0 ==> r is None,
{
    if path.len() == 0 {
        return None;
    }
    match get_correct_level_hashmap(s, None, path) {
        Some(Some(x)) => Some(x),
        _ => None,
    }
}

} // verus!

verus! {

impl core::str::FromStr for ProtoAnnotation {
    type Err = crate::proto_structure::ParseProtoAnnotationError;

    fn from_str(s: &str) -> Result<ProtoAnnotation, crate::proto_structure::ParseProtoAnnotationError> {
        let w = chars_of(s);
        ProtoAnnotation::from_word(w.as_slice())
    }
}

} // verus!
