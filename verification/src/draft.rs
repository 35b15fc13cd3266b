//! The making of a new record from what the user entered: the tags out of
//! one line, the template out of the edited text.

use crate::storage::Prompt;
use crate::text::{
    char_is_space, chars_of, join, joined, lines, lines_of, string_of, trim, trim_bounds,
    trim_start, trimmed, views,
};
use vstd::prelude::*;

verus! {

/// How many characters other than the comma stand in a row from position
/// `i` on.
pub open spec fn field_run(s: Seq<char>, i: int) -> nat
    decreases s.len() - i,
{
    if 0 <= i < s.len() && s[i] != ',' {
        1 + field_run(s, i + 1)
    } else {
        0
    }
}

/// The tags that the line `s` holds from position `i` on: the stretches
/// between commas, each without the white space around it, those left out
/// of which nothing remains.
pub open spec fn tags_from(s: Seq<char>, i: int) -> Seq<Seq<char>>
    decreases s.len() - i,
{
    if i < 0 || i > s.len() {
        Seq::empty()
    } else {
        let end = i + field_run(s, i);
        let tag = trimmed(s.subrange(i, end));
        let rest = if end < s.len() {
            tags_from(s, end + 1)
        } else {
            Seq::empty()
        };
        if tag.len() > 0 {
            seq![tag] + rest
        } else {
            rest
        }
    }
}

/// The tags that the line `s` holds.
pub open spec fn tags_of(s: Seq<char>) -> Seq<Seq<char>> {
    tags_from(s, 0)
}

/// Whether `line` is a comment: its first character after any white space
/// is `#`.
pub open spec fn is_comment(line: Seq<char>) -> bool {
    trim_start(line).len() > 0 && trim_start(line)[0] == '#'
}

/// The lines of `lines` that are no comments, in their order.
pub open spec fn without_comments(lines: Seq<Seq<char>>) -> Seq<Seq<char>>
    decreases lines.len(),
{
    if lines.len() == 0 {
        Seq::empty()
    } else if is_comment(lines.last()) {
        without_comments(lines.drop_last())
    } else {
        without_comments(lines.drop_last()).push(lines.last())
    }
}

/// The template that the edited text `edited` stands for: its lines without
/// the comments, joined by line feeds, without the white space around the
/// whole.
pub open spec fn cleaned(edited: Seq<char>) -> Seq<char> {
    trimmed(joined(without_comments(lines_of(edited)), seq!['\n']))
}

/// A UUID in its hyphenated form: 36 characters, hyphens after the groups of
/// 8, 4, 4 and 4, lower-case hexadecimal digits elsewhere; of version 4, the
/// first digit of the third group is `4`.
pub open spec fn is_random_id(s: Seq<char>) -> bool {
    &&& s.len() == 36
    &&& forall|i: int|
        0 <= i < 36 ==> if i == 8 || i == 13 || i == 18 || i == 23 {
            #[trigger] s[i] == '-'
        } else {
            '0' <= s[i] <= '9' || 'a' <= s[i] <= 'f'
        }
    &&& s[14] == '4'
}

/// Why no record was made.
#[derive(Clone, Copy, Debug, PartialEq, Eq)]
pub enum DraftError {
    /// The editor gave no text back.
    NoTemplate,
    /// Nothing is left of the text once comments and surrounding white space
    /// are taken away.
    EmptyTemplate,
}

impl DraftError {
    /// The message for the user.
    pub fn message(&self) -> (text: String)
        ensures
            text@ == match *self {
                DraftError::NoTemplate => "Aborted: No template provided."@,
                DraftError::EmptyTemplate => "Aborted: Empty template."@,
            },
    {
        match self {
            DraftError::NoTemplate => "Aborted: No template provided.".to_owned(),
            DraftError::EmptyTemplate => "Aborted: Empty template.".to_owned(),
        }
    }
}

/// Reads the tags out of one line: the stretches between commas, each
/// without the white space around it, without those of which nothing
/// remains.
pub fn parse_tags(input: &str) -> (tags: Vec<String>)
    ensures
        views(tags@) == tags_of(input@),
{
    let chars = chars_of(input);
    let mut tags: Vec<String> = Vec::new();
    let mut i: usize = 0;
    let mut done = false;
    proof {
        assert(views(tags@) =~= Seq::<Seq<char>>::empty());
        assert(Seq::<Seq<char>>::empty() + tags_from(chars@, 0) =~= tags_from(chars@, 0));
    }
    while !done
        invariant
            i <= chars.len(),
            chars@ == input@,
            done ==> views(tags@) == tags_of(chars@),
            !done ==> tags_of(chars@) == views(tags@) + tags_from(chars@, i as int),
        decreases chars.len() - i + (if done { 0int } else { 1int }),
    {
        let mut e: usize = i;
        while e < chars.len() && chars[e] != ','
            invariant
                i <= e <= chars.len(),
                i + field_run(chars@, i as int) == e + field_run(chars@, e as int),
            decreases chars.len() - e,
        {
            e += 1;
        }
        let (a, b) = trim_bounds(&chars, i, e);
        let ghost before = views(tags@);
        let ghost rest = if e < chars.len() {
            tags_from(chars@, e + 1)
        } else {
            Seq::empty()
        };
        if a < b {
            let tag = string_of(&chars, a, b);
            proof {
                assert(views(tags@.push(tag)) =~= before.push(tag@));
                assert(before + (seq![tag@] + rest) =~= before.push(tag@) + rest);
            }
            tags.push(tag);
        }
        if e < chars.len() {
            i = e + 1;
        } else {
            proof {
                assert(views(tags@) + rest =~= views(tags@));
            }
            done = true;
        }
    }
    tags
}

/// Whether `line` is a comment.
fn is_comment_line(line: &str) -> (b: bool)
    ensures
        b == is_comment(line@),
{
    let chars = chars_of(line);
    let (a, b) = trim_start_bounds(&chars);
    a < b && chars[a] == '#'
}

/// The bounds of `chars` without the white space at its start.
fn trim_start_bounds(chars: &Vec<char>) -> (bounds: (usize, usize))
    ensures
        bounds.0 <= bounds.1 == chars.len(),
        chars@.subrange(bounds.0 as int, bounds.1 as int) == trim_start(chars@),
{
    let mut a: usize = 0;
    proof {
        assert(chars@.subrange(0, chars@.len() as int) =~= chars@);
    }
    while a < chars.len() && char_is_space(chars[a])
        invariant
            a <= chars.len(),
            trim_start(chars@) == trim_start(chars@.subrange(a as int, chars@.len() as int)),
        decreases chars.len() - a,
    {
        proof {
            let cur = chars@.subrange(a as int, chars@.len() as int);
            assert(cur[0] == chars@[a as int]);
            assert(cur.drop_first() =~= chars@.subrange(a + 1, chars@.len() as int));
        }
        a += 1;
    }
    proof {
        let cur = chars@.subrange(a as int, chars@.len() as int);
        if a < chars.len() {
            assert(cur[0] == chars@[a as int]);
        }
        assert(trim_start(cur) == cur);
    }
    (a, chars.len())
}

/// Makes the template out of the edited text: drops the comment lines,
/// joins what is left by line feeds and takes the white space around it
/// away.
pub fn clean_template(edited: &str) -> (template: String)
    ensures
        template@ == cleaned(edited@),
{
    let all = lines(edited);
    let mut kept: Vec<String> = Vec::new();
    let mut i: usize = 0;
    proof {
        assert(views(kept@) =~= without_comments(views(all@).take(0)));
    }
    while i < all.len()
        invariant
            i <= all.len(),
            views(kept@) == without_comments(views(all@).take(i as int)),
        decreases all.len() - i,
    {
        proof {
            let next = views(all@).take(i + 1);
            assert(next.drop_last() =~= views(all@).take(i as int));
            assert(next.last() == all@[i as int]@);
        }
        if !is_comment_line(all[i].as_str()) {
            let ghost before = views(kept@);
            let line = all[i].clone();
            proof {
                assert(views(kept@.push(line)) =~= before.push(line@));
            }
            kept.push(line);
        }
        i += 1;
    }
    proof {
        assert(views(all@).take(i as int) =~= views(all@));
        reveal_strlit("\n");
        assert("\n"@ =~= seq!['\n']);
    }
    let text = join(&kept, "\n");
    trim(text.as_str())
}

/// Makes the record with the identifier `id` out of what the user entered:
/// the alias and the description as they are, the tags out of `tags_input`,
/// the template out of `edited`, the text that the editor gave back. Fails
/// where the editor gave nothing back, or nothing is left of the text.
pub fn compose(
    id: String,
    alias: String,
    description: String,
    tags_input: &str,
    edited: Option<&str>,
) -> (out: Result<Prompt, DraftError>)
    ensures
        match out {
            Ok(prompt) => edited.is_some() && cleaned(edited.unwrap()@).len() > 0 && prompt.id
                == id && prompt.alias == alias && prompt.description == description && views(
                prompt.tags@,
            ) == tags_of(tags_input@) && prompt.template@ == cleaned(edited.unwrap()@),
            Err(DraftError::NoTemplate) => edited.is_none(),
            Err(DraftError::EmptyTemplate) => edited.is_some() && cleaned(edited.unwrap()@).len()
                == 0,
        },
{
    let tags = parse_tags(tags_input);
    match edited {
        None => Err(DraftError::NoTemplate),
        Some(text) => {
            let template = clean_template(text);
            if template.as_str().is_empty() {
                Err(DraftError::EmptyTemplate)
            } else {
                Ok(Prompt { id, alias, description, tags, template })
            }
        },
    }
}

/// `Uuid::new_v4` followed by `to_string`, of the crate `uuid`: a fresh
/// random identifier. The result differs from call to call; whatever it is,
/// it is a version 4 UUID written in the hyphenated lower-case form. The
/// call takes random bytes from the operating system and does not return
/// where the system gives none.
#[verifier::external_body]
fn fresh_id() -> (id: String)
    ensures
        is_random_id(id@),
{
    uuid::Uuid::new_v4().to_string()
}

/// Makes a record with a fresh random identifier out of what the user
/// entered, as [`compose`] does with a given one.
pub fn draft(alias: String, description: String, tags_input: &str, edited: Option<&str>) -> (out:
    Result<Prompt, DraftError>)
    ensures
        match out {
            Ok(prompt) => edited.is_some() && cleaned(edited.unwrap()@).len() > 0 && is_random_id(
                prompt.id@,
            ) && prompt.alias == alias && prompt.description == description && views(prompt.tags@)
                == tags_of(tags_input@) && prompt.template@ == cleaned(edited.unwrap()@),
            Err(DraftError::NoTemplate) => edited.is_none(),
            Err(DraftError::EmptyTemplate) => edited.is_some() && cleaned(edited.unwrap()@).len()
                == 0,
        },
{
    compose(fresh_id(), alias, description, tags_input, edited)
}

} // verus!
