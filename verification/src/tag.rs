//! Tag values: validated `key:value` pairs and the best-effort parser
//! for comma- or space-separated tag lists.

use vstd::prelude::*;
use vstd::string::{StrSliceExecFns, StringExecFns};

verus! {

/// The Unicode White_Space property: the fixed set of code points
/// std's `char::is_whitespace` documents.
pub open spec fn is_unicode_ws(c: char) -> bool {
    ||| c == '\u{0009}'
    ||| c == '\u{000A}'
    ||| c == '\u{000B}'
    ||| c == '\u{000C}'
    ||| c == '\u{000D}'
    ||| c == ' '
    ||| c == '\u{0085}'
    ||| c == '\u{00A0}'
    ||| c == '\u{1680}'
    ||| c == '\u{2000}'
    ||| c == '\u{2001}'
    ||| c == '\u{2002}'
    ||| c == '\u{2003}'
    ||| c == '\u{2004}'
    ||| c == '\u{2005}'
    ||| c == '\u{2006}'
    ||| c == '\u{2007}'
    ||| c == '\u{2008}'
    ||| c == '\u{2009}'
    ||| c == '\u{200A}'
    ||| c == '\u{2028}'
    ||| c == '\u{2029}'
    ||| c == '\u{202F}'
    ||| c == '\u{205F}'
    ||| c == '\u{3000}'
}

/// Relies on std's `char::is_whitespace`: true exactly on the Unicode
/// White_Space code points, a function of the character alone.
#[verifier::external_body]
fn char_is_whitespace(c: char) -> (r: bool)
    ensures
        r == is_unicode_ws(c),
{
    c.is_whitespace()
}

/// A character that makes a tag key meaningful: neither whitespace nor
/// the Unicode replacement character.
pub open spec fn tag_char_ok(c: char) -> bool {
    c != '\u{FFFD}' && !is_unicode_ws(c)
}

/// The first meaningful character of `s` at or after `i`.
pub open spec fn first_ok_from(s: Seq<char>, i: int) -> Option<char>
    decreases s.len() - i,
{
    if i < 0 || i >= s.len() {
        None
    } else if tag_char_ok(s[i]) {
        Some(s[i])
    } else {
        first_ok_from(s, i + 1)
    }
}

/// The first meaningful character of a key, if any.
pub open spec fn first_ok(s: Seq<char>) -> Option<char> {
    first_ok_from(s, 0)
}

/// A key is accepted iff it is non-empty, has at least one meaningful
/// character, and its first meaningful character is not a colon.
pub open spec fn valid_tag_key(key: Seq<char>) -> bool {
    &&& key.len() > 0
    &&& first_ok(key) matches Some(c) && c != ':'
}

/// The fixed message construction rejects a key with.
pub open spec fn key_err(key: Seq<char>) -> Seq<char> {
    if key.len() == 0 {
        "tag key was empty"@
    } else if first_ok(key) is None {
        "tag contained only whitespace or invalid unicode characters"@
    } else {
        "tag cannot start with a colon"@
    }
}

/// A key/value pair of strings. The value may be empty; the key obeys
/// [`valid_tag_key`].
#[derive(Clone, Debug, PartialEq, Eq)]
pub struct Tag {
    key: String,
    value: String,
}

impl Tag {
    /// The key's characters.
    pub closed spec fn key_view(self) -> Seq<char> {
        self.key@
    }

    /// The value's characters.
    pub closed spec fn value_view(self) -> Seq<char> {
        self.value@
    }

    /// Builds a tag, accepting the pair iff the key is valid; the value
    /// is taken as given, empty or not.
    pub fn new(key: String, value: String) -> (r: Result<Tag, String>)
        ensures
            match r {
                Ok(t) => valid_tag_key(key@) && t.key_view() == key@ && t.value_view() == value@,
                Err(e) => !valid_tag_key(key@) && e@ == key_err(key@),
            },
    {
        if key.as_str().is_empty() {
            return Err("tag key was empty".to_owned());
        }
        let n = key.as_str().unicode_len();
        let mut i: usize = 0;
        while i < n
            invariant
                i <= n,
                n == key@.len(),
                first_ok(key@) == first_ok_from(key@, i as int),
            decreases n - i,
        {
            let c = key.as_str().get_char(i);
            if c != '\u{FFFD}' && !char_is_whitespace(c) {
                if c == ':' {
                    return Err("tag cannot start with a colon".to_owned());
                }
                return Ok(Tag { key, value });
            }
            i += 1;
        }
        Err("tag contained only whitespace or invalid unicode characters".to_owned())
    }

    pub fn key(&self) -> (r: &String)
        ensures
            r@ == self.key_view(),
    {
        &self.key
    }

    pub fn value(&self) -> (r: &String)
        ensures
            r@ == self.value_view(),
    {
        &self.value
    }

    /// Takes ownership; the strings are already owned, so the tag is
    /// returned unchanged.
    pub fn into_owned(self) -> (r: Self)
        ensures
            r.key_view() == self.key_view(),
            r.value_view() == self.value_view(),
    {
        self
    }

    /// The tag's rendering: the key alone if the value is empty, else
    /// `key:value` with exactly one colon between them.
    pub fn display_string(&self) -> (r: String)
        ensures
            self.value_view().len() == 0 ==> r@ == self.key_view(),
            self.value_view().len() > 0 ==> r@ == self.key_view() + ":"@ + self.value_view(),
    {
        if self.value.as_str().is_empty() {
            self.key.clone()
        } else {
            let mut s = self.key.clone();
            s.append(":");
            s.append(self.value.as_str());
            s
        }
    }
}

/// The first colon of `s` at or after `i`.
pub open spec fn colon_from(s: Seq<char>, i: int) -> Option<int>
    decreases s.len() - i,
{
    if i < 0 || i >= s.len() {
        None
    } else if s[i] == ':' {
        Some(i)
    } else {
        colon_from(s, i + 1)
    }
}

/// The position of the first colon of a chunk, if any.
pub open spec fn colon_first(s: Seq<char>) -> Option<int> {
    colon_from(s, 0)
}

/// The key part of a chunk: everything before the first colon.
pub open spec fn chunk_key(s: Seq<char>) -> Seq<char> {
    match colon_first(s) {
        Some(p) => s.subrange(0, p),
        None => s,
    }
}

/// The value part of a chunk: everything after the first colon.
pub open spec fn chunk_value(s: Seq<char>) -> Seq<char> {
    match colon_first(s) {
        Some(p) => s.subrange(p + 1, s.len() as int),
        None => Seq::empty(),
    }
}

/// A chunk parses iff it does not lead or end with a colon and its key
/// part is a valid tag key.
pub open spec fn chunk_ok(s: Seq<char>) -> bool {
    match colon_first(s) {
        Some(p) => p != 0 && p != s.len() - 1 && valid_tag_key(s.subrange(0, p)),
        None => valid_tag_key(s),
    }
}

/// The fixed message a malformed chunk is rejected with.
pub open spec fn chunk_err(s: Seq<char>) -> Seq<char> {
    match colon_first(s) {
        Some(p) => if p == 0 {
            "tag cannot start with a colon"@
        } else if p == s.len() - 1 {
            "tag cannot end with a colon"@
        } else {
            key_err(s.subrange(0, p))
        },
        None => key_err(s),
    }
}

/// A tag-list separator: ASCII comma or space.
pub open spec fn sep_char(c: char) -> bool {
    c == ',' || c == ' '
}

/// The end of the separator-free run starting at `i`.
pub open spec fn run_end(s: Seq<char>, i: int) -> int
    decreases s.len() - i,
{
    if i < 0 || i >= s.len() {
        i
    } else if sep_char(s[i]) {
        i
    } else {
        run_end(s, i + 1)
    }
}

proof fn lemma_run_end_bounds(s: Seq<char>, i: int)
    requires
        0 <= i <= s.len(),
    ensures
        i <= run_end(s, i) <= s.len(),
    decreases s.len() - i,
{
    if i < s.len() && !sep_char(s[i]) {
        lemma_run_end_bounds(s, i + 1);
    }
}

/// The chunks of `s` from `i` on: maximal separator-free runs, empties
/// dropped.
pub open spec fn split_from(s: Seq<char>, i: int) -> Seq<Seq<char>>
    decreases s.len() - i,
    via split_from_decreases
{
    if i < 0 || i >= s.len() {
        Seq::empty()
    } else if sep_char(s[i]) {
        split_from(s, i + 1)
    } else {
        seq![s.subrange(i, run_end(s, i))] + split_from(s, run_end(s, i))
    }
}

#[via_fn]
proof fn split_from_decreases(s: Seq<char>, i: int) {
    if 0 <= i < s.len() && !sep_char(s[i]) {
        lemma_run_end_bounds(s, i + 1);
    }
}

/// The chunks of a tag list: runs between separators, empties dropped.
pub open spec fn split_chunks(s: Seq<char>) -> Seq<Seq<char>> {
    split_from(s, 0)
}

/// The key/value pairs of the chunks that parse, in order.
pub open spec fn tags_of(chunks: Seq<Seq<char>>) -> Seq<(Seq<char>, Seq<char>)>
    decreases chunks.len(),
{
    if chunks.len() == 0 {
        Seq::empty()
    } else {
        let prev = tags_of(chunks.drop_last());
        let c = chunks.last();
        if chunk_ok(c) {
            prev.push((chunk_key(c), chunk_value(c)))
        } else {
            prev
        }
    }
}

/// The aggregated error message over the chunks that do not parse:
/// empty when all parse, else a fixed prefix and the chunk messages
/// joined by commas, in order.
pub open spec fn err_msg_of(chunks: Seq<Seq<char>>) -> Seq<char>
    decreases chunks.len(),
{
    if chunks.len() == 0 {
        Seq::empty()
    } else {
        let prev = err_msg_of(chunks.drop_last());
        let c = chunks.last();
        if chunk_ok(c) {
            prev
        } else if prev.len() == 0 {
            "Errors while parsing tags: "@ + chunk_err(c)
        } else {
            prev + ", "@ + chunk_err(c)
        }
    }
}

/// Every chunk the splitter yields is non-empty: runs of separators
/// collapse and leading or trailing separators leave nothing behind.
pub proof fn lemma_split_chunks_nonempty(s: Seq<char>, i: int)
    requires
        0 <= i,
    ensures
        forall|t: int| 0 <= t < split_from(s, i).len() ==> (#[trigger] split_from(s, i)[t]).len()
            > 0,
    decreases s.len() - i,
{
    if i < s.len() {
        if sep_char(s[i]) {
            lemma_split_chunks_nonempty(s, i + 1);
            assert(split_from(s, i) == split_from(s, i + 1));
            assert forall|t: int| 0 <= t < split_from(s, i).len() implies (#[trigger] split_from(
                s,
                i,
            )[t]).len() > 0 by {
                assert(split_from(s, i)[t] == split_from(s, i + 1)[t]);
            }
        } else {
            lemma_run_end_bounds(s, i + 1);
            let k = run_end(s, i);
            lemma_split_chunks_nonempty(s, k);
            assert forall|t: int| 0 <= t < split_from(s, i).len() implies (#[trigger] split_from(
                s,
                i,
            )[t]).len() > 0 by {
                if t == 0 {
                    assert(split_from(s, i)[0] == s.subrange(i, k));
                } else {
                    assert(split_from(s, i)[t] == split_from(s, k)[t - 1]);
                }
            }
        }
    } else {
        assert(split_from(s, i) =~= Seq::<Seq<char>>::empty());
    }
}

/// What `parse_tags` returns is a function of the chunk list alone: two
/// inputs that split into the same chunks parse to the same tags and
/// the same error message, however their separators collide.
pub proof fn lemma_parse_tags_same_chunks(a: Seq<char>, b: Seq<char>)
    requires
        split_chunks(a) == split_chunks(b),
    ensures
        tags_of(split_chunks(a)) == tags_of(split_chunks(b)),
        err_msg_of(split_chunks(a)) == err_msg_of(split_chunks(b)),
{
}

fn run_end_exec(s: &str, i: usize) -> (j: usize)
    requires
        i <= s@.len(),
    ensures
        j as int == run_end(s@, i as int),
        i <= j <= s@.len(),
{
    let n = s.unicode_len();
    let mut j = i;
    while j < n
        invariant
            i <= j <= n,
            n == s@.len(),
            run_end(s@, i as int) == run_end(s@, j as int),
        decreases n - j,
    {
        let c = s.get_char(j);
        if c == ',' || c == ' ' {
            return j;
        }
        j += 1;
    }
    j
}

/// Parses a comma- or space-separated tag list, best-effort: every
/// well-formed chunk becomes a tag, and one aggregated message reports
/// every malformed chunk; `None` when all chunks parse.
pub fn parse_tags(str: &str) -> (r: (Vec<Tag>, Option<String>))
    ensures
        ({
            let chunks = split_chunks(str@);
            &&& r.0@.len() == tags_of(chunks).len()
            &&& forall|i: int| 0 <= i < tags_of(chunks).len() ==> (#[trigger] r.0@[i]).key_view()
                == tags_of(chunks)[i].0 && r.0@[i].value_view() == tags_of(chunks)[i].1
            &&& match r.1 {
                Some(m) => m@ == err_msg_of(chunks) && err_msg_of(chunks).len() > 0,
                None => err_msg_of(chunks).len() == 0,
            }
        }),
{
    let n = str.unicode_len();
    let mut tags: Vec<Tag> = Vec::new();
    let mut error_message = String::new();
    let ghost mut done: Seq<Seq<char>> = Seq::empty();
    let mut i: usize = 0;
    proof {
        assert(split_chunks(str@) =~= done + split_from(str@, 0));
    }
    while i < n
        invariant
            i <= n,
            n == str@.len(),
            split_chunks(str@) == done + split_from(str@, i as int),
            tags@.len() == tags_of(done).len(),
            forall|t: int| 0 <= t < tags_of(done).len() ==> (#[trigger] tags@[t]).key_view()
                == tags_of(done)[t].0 && tags@[t].value_view() == tags_of(done)[t].1,
            error_message@ == err_msg_of(done),
        decreases n - i,
    {
        let c = str.get_char(i);
        if c == ',' || c == ' ' {
            proof {
                assert(split_from(str@, i as int) == split_from(str@, i + 1));
            }
            i += 1;
        } else {
            let j = run_end_exec(str, i);
            proof {
                lemma_run_end_bounds(str@, i as int + 1);
            }
            let chunk = str.substring_char(i, j);
            proof {
                assert(split_from(str@, i as int) == seq![
                    str@.subrange(i as int, j as int),
                ] + split_from(str@, j as int));
            }
            let ghost prev_done = done;
            proof {
                done = done.push(chunk@);
                assert(done.drop_last() =~= prev_done);
                assert(split_chunks(str@) =~= done + split_from(str@, j as int));
            }
            match parse_tag_chunk(chunk) {
                Ok(tag) => {
                    tags.push(tag);
                },
                Err(err) => {
                    if error_message.as_str().is_empty() {
                        error_message.append("Errors while parsing tags: ");
                    } else {
                        error_message.append(", ");
                    }
                    error_message.append(err.as_str());
                },
            }
            proof {
                assert(tags@.len() == tags_of(done).len());
                assert(error_message@ == err_msg_of(done));
            }
            i = j;
        }
    }
    proof {
        assert(split_from(str@, n as int) =~= Seq::<Seq<char>>::empty());
        assert(done =~= split_chunks(str@));
    }
    if error_message.as_str().is_empty() {
        (tags, None)
    } else {
        (tags, Some(error_message))
    }
}

/// Parses one `tag[:value]` chunk: a leading colon is rejected, a
/// trailing colon with nothing after the first colon is rejected, and
/// a chunk without a colon is a key-only tag with an empty value. A
/// value may itself end in a colon.
pub fn parse_tag_chunk(chunk: &str) -> (r: Result<Tag, String>)
    ensures
        match r {
            Ok(t) => chunk_ok(chunk@) && t.key_view() == chunk_key(chunk@) && t.value_view()
                == chunk_value(chunk@),
            Err(e) => !chunk_ok(chunk@) && e@ == chunk_err(chunk@),
        },
{
    let n = chunk.unicode_len();
    let mut i: usize = 0;
    while i < n
        invariant
            i <= n,
            n == chunk@.len(),
            colon_first(chunk@) == colon_from(chunk@, i as int),
        decreases n - i,
    {
        let c = chunk.get_char(i);
        if c == ':' {
            if i == 0 {
                return Err("tag cannot start with a colon".to_owned());
            }
            if i == n - 1 {
                return Err("tag cannot end with a colon".to_owned());
            }
            let name = chunk.substring_char(0, i);
            let value = chunk.substring_char(i + 1, n);
            return Tag::new(name.to_owned(), value.to_owned());
        }
        i += 1;
    }
    Tag::new(chunk.to_owned(), String::new())
}

} // verus!
