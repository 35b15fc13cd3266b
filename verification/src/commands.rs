//! What the commands compute: the listing of the store, the lines offered
//! to the fuzzy finder and the alias read back from its choice, and the use
//! of a stored template.

use crate::engine::{process, queries, resolved};
use crate::resolver::{text_of, ResolutionError};
use crate::render::rendered;
use crate::storage::{find_prompt, Prompt};
use crate::text::{chars_of, join, joined, string_of, views};
use vstd::prelude::*;
use vstd::utf8::{decode_utf8, encode_utf8, encode_utf8_decode_utf8, is_char_boundary};

verus! {

/// `s`, with blanks after it up to `width` characters where it is shorter.
pub open spec fn padded(s: Seq<char>, width: nat) -> Seq<char> {
    if s.len() >= width {
        s
    } else {
        s + Seq::new((width - s.len()) as nat, |i: int| ' ')
    }
}

/// A description can be cut after 37 bytes of its UTF-8 form: it is no
/// longer than that, or no character lies across that place.
pub open spec fn can_shorten(description: Seq<char>) -> bool {
    encode_utf8(description).len() > 37 ==> is_char_boundary(encode_utf8(description), 37)
}

/// The description as a row shows it: as it is where its UTF-8 form has at
/// most 37 bytes, else the first 37 bytes of it and three dots.
pub open spec fn shortened(description: Seq<char>) -> Seq<char> {
    if encode_utf8(description).len() > 37 {
        decode_utf8(encode_utf8(description).subrange(0, 37)) + "..."@
    } else {
        description
    }
}

/// Three columns side by side, 15, 40 and 20 characters wide, a blank
/// between each two.
pub open spec fn row_of(first: Seq<char>, second: Seq<char>, third: Seq<char>) -> Seq<char> {
    padded(first, 15) + seq![' '] + padded(second, 40) + seq![' '] + padded(third, 20)
}

/// The row that lists `prompt`: its alias, its description, shortened, and
/// its tags in one line.
pub open spec fn row_for(prompt: Prompt) -> Seq<char> {
    row_of(prompt.alias@, shortened(prompt.description@), joined(views(prompt.tags@), ", "@))
}

/// The listing of `prompts`: a line of notice where there are none, else
/// the header, a rule of 80 hyphens, and one row for each record.
pub open spec fn listing(prompts: Seq<Prompt>) -> Seq<Seq<char>> {
    if prompts.len() == 0 {
        seq!["No prompts found. Run `flow add` to create one."@]
    } else {
        seq![row_of("ALIAS"@, "DESCRIPTION"@, "TAGS"@), Seq::new(80, |i: int| '-')]
            + prompts.map_values(|p: Prompt| row_for(p))
    }
}

/// The line that stands for `prompt` in the fuzzy finder.
pub open spec fn search_line(prompt: Prompt) -> Seq<char> {
    prompt.alias@ + " | "@ + prompt.description@
}

/// The text handed to the fuzzy finder: one line for each record.
pub open spec fn search_text(prompts: Seq<Prompt>) -> Seq<char> {
    joined(prompts.map_values(|p: Prompt| search_line(p)), seq!['\n'])
}

/// The separator between alias and description starts at position `i`.
pub open spec fn separator_at(s: Seq<char>, i: int) -> bool {
    0 <= i && i + 2 < s.len() && s[i] == ' ' && s[i + 1] == '|' && s[i + 2] == ' '
}

/// How many positions from `i` on lie before the first separator.
pub open spec fn head_run(s: Seq<char>, i: int) -> nat
    decreases s.len() - i,
{
    if 0 <= i < s.len() && !separator_at(s, i) {
        1 + head_run(s, i + 1)
    } else {
        0
    }
}

/// The alias that a line of the fuzzy finder names: what stands before the
/// first separator.
pub open spec fn alias_in(line: Seq<char>) -> Seq<char> {
    line.subrange(0, head_run(line, 0) as int)
}

/// `count` times the character `c`.
fn run_of(c: char, count: usize) -> (out: String)
    ensures
        out@ == Seq::new(count as nat, |i: int| c),
{
    let mut out = String::new();
    let mut i: usize = 0;
    while i < count
        invariant
            i <= count,
            out@ == Seq::new(i as nat, |k: int| c),
        decreases count - i,
    {
        let ghost before = out@;
        out.push(c);
        proof {
            assert(out@ =~= Seq::new((i + 1) as nat, |k: int| c));
        }
        i += 1;
    }
    out
}

/// Pads `text` with blanks to `width` characters.
pub fn pad(text: &str, width: usize) -> (out: String)
    ensures
        out@ == padded(text@, width as nat),
{
    let n = text.unicode_len();
    let mut out = text.to_owned();
    if n < width {
        let blanks = run_of(' ', width - n);
        out.append(blanks.as_str());
    }
    out
}

/// Whether [`shorten`] takes `description`.
pub fn fits_row(description: &str) -> (b: bool)
    ensures
        b == can_shorten(description@),
{
    description.as_bytes().len() <= 37 || description.is_char_boundary(37)
}

/// Shortens `description` for a row of the listing.
pub fn shorten(description: &str) -> (out: String)
    requires
        can_shorten(description@),
    ensures
        out@ == shortened(description@),
{
    if description.as_bytes().len() > 37 {
        let (head, _) = description.split_at(37);
        proof {
            encode_utf8_decode_utf8(head@);
            assert(encode_utf8(head@) == encode_utf8(description@).subrange(0, 37));
        }
        let mut out = head.to_owned();
        out.append("...");
        out
    } else {
        description.to_owned()
    }
}

/// Three columns side by side.
fn row(first: &str, second: &str, third: &str) -> (out: String)
    ensures
        out@ == row_of(first@, second@, third@),
{
    let mut out = pad(first, 15);
    out.push(' ');
    out.append(pad(second, 40).as_str());
    out.push(' ');
    out.append(pad(third, 20).as_str());
    proof {
        assert(out@ =~= row_of(first@, second@, third@));
    }
    out
}

/// Whether every description of `prompts` can be shortened, as [`list`]
/// needs it.
pub fn can_list(prompts: &Vec<Prompt>) -> (b: bool)
    ensures
        b == forall|i: int| 0 <= i < prompts@.len() ==> can_shorten((#[trigger] prompts@[i]).description@),
{
    let mut i: usize = 0;
    while i < prompts.len()
        invariant
            i <= prompts@.len(),
            forall|j: int| 0 <= j < i ==> can_shorten((#[trigger] prompts@[j]).description@),
        decreases prompts.len() - i,
    {
        if !fits_row(prompts[i].description.as_str()) {
            return false;
        }
        i += 1;
    }
    true
}

/// The listing of the store, line by line.
pub fn list(prompts: &Vec<Prompt>) -> (out: Vec<String>)
    requires
        forall|i: int| 0 <= i < prompts@.len() ==> can_shorten((#[trigger] prompts@[i]).description@),
    ensures
        views(out@) == listing(prompts@),
{
    let mut out: Vec<String> = Vec::new();
    if prompts.len() == 0 {
        out.push("No prompts found. Run `flow add` to create one.".to_owned());
        proof {
            assert(views(out@) =~= listing(prompts@));
        }
        return out;
    }
    out.push(row("ALIAS", "DESCRIPTION", "TAGS"));
    out.push(run_of('-', 80));
    let mut i: usize = 0;
    while i < prompts.len()
        invariant
            i <= prompts@.len(),
            out@.len() == 2 + i,
            out@[0]@ == row_of("ALIAS"@, "DESCRIPTION"@, "TAGS"@),
            out@[1]@ == Seq::new(80, |k: int| '-'),
            forall|j: int| 0 <= j < i ==> (#[trigger] out@[2 + j])@ == row_for(prompts@[j]),
            forall|j: int|
                0 <= j < prompts@.len() ==> can_shorten((#[trigger] prompts@[j]).description@),
        decreases prompts.len() - i,
    {
        let prompt = &prompts[i];
        let tags = join(&prompt.tags, ", ");
        let desc = shorten(prompt.description.as_str());
        let line = row(prompt.alias.as_str(), desc.as_str(), tags.as_str());
        let ghost before = out@;
        out.push(line);
        proof {
            assert forall|j: int| 0 <= j < i + 1 implies (#[trigger] out@[2 + j])@ == row_for(
                prompts@[j],
            ) by {
                if j < i {
                    assert(out@[2 + j] == before[2 + j]);
                }
            }
        }
        i += 1;
    }
    proof {
        let want = listing(prompts@);
        assert(views(out@).len() == want.len());
        assert forall|k: int| 0 <= k < want.len() implies views(out@)[k] == want[k] by {
            if k >= 2 {
                assert(out@[2 + (k - 2)]@ == row_for(prompts@[k - 2]));
            }
        }
        assert(views(out@) =~= want);
    }
    out
}

/// The text to hand to the fuzzy finder: for each record one line, the
/// alias and the description with a separator between them.
pub fn search_input(prompts: &Vec<Prompt>) -> (out: String)
    ensures
        out@ == search_text(prompts@),
{
    let mut rows: Vec<String> = Vec::new();
    let mut i: usize = 0;
    while i < prompts.len()
        invariant
            i <= prompts@.len(),
            rows@.len() == i,
            forall|j: int| 0 <= j < i ==> (#[trigger] rows@[j])@ == search_line(prompts@[j]),
        decreases prompts.len() - i,
    {
        let mut line = prompts[i].alias.clone();
        line.append(" | ");
        line.append(prompts[i].description.as_str());
        rows.push(line);
        i += 1;
    }
    proof {
        assert(views(rows@) =~= prompts@.map_values(|p: Prompt| search_line(p)));
        reveal_strlit("\n");
        assert("\n"@ =~= seq!['\n']);
    }
    join(&rows, "\n")
}

/// The alias that the line chosen in the fuzzy finder names: what stands
/// before the first separator, or `None` where nothing stands there.
pub fn chosen_alias(line: &str) -> (alias: Option<String>)
    ensures
        match alias {
            Some(a) => a@ == alias_in(line@) && a@.len() > 0,
            None => alias_in(line@).len() == 0,
        },
{
    let chars = chars_of(line);
    let mut i: usize = 0;
    while i < chars.len() && !(chars.len() - i > 2 && chars[i] == ' ' && chars[i + 1] == '|'
        && chars[i + 2] == ' ')
        invariant
            i <= chars.len(),
            head_run(chars@, 0) == i + head_run(chars@, i as int),
        decreases chars.len() - i,
    {
        i += 1;
    }
    if i > 0 {
        Some(string_of(&chars, 0, i))
    } else {
        None
    }
}

/// Why a stored template could not be used.
#[derive(Debug)]
pub enum UseError {
    /// No record goes by the alias.
    NotFound,
    /// The values of its variables could not be resolved.
    Unresolved(ResolutionError),
}

/// Record `i` is the first of `prompts` that goes by `alias`.
pub open spec fn first_by_alias(prompts: Seq<Prompt>, alias: Seq<char>, i: int) -> bool {
    &&& 0 <= i < prompts.len()
    &&& prompts[i].alias@ == alias
    &&& forall|j: int| 0 <= j < i ==> (#[trigger] prompts[j]).alias@ != alias
}

/// The index of the first record of `prompts` that goes by `alias`, if one
/// does.
pub open spec fn index_of_alias(prompts: Seq<Prompt>, alias: Seq<char>) -> Option<int> {
    if exists|i: int| first_by_alias(prompts, alias, i) {
        Some(choose|i: int| first_by_alias(prompts, alias, i))
    } else {
        None
    }
}

/// Uses the record of `prompts` that goes by `alias`, the first one where
/// several do: resolves and renders its template with the redirected input
/// `piped` and the answers `answers`, as [`process`] does.
pub fn use_prompt(prompts: &Vec<Prompt>, alias: &str, piped: Option<&str>, answers: &Vec<String>) -> (out:
    Result<String, UseError>)
    ensures
        match index_of_alias(prompts@, alias@) {
            None => out matches Err(UseError::NotFound),
            Some(i) => match resolved(prompts@[i].template@, text_of(piped), views(answers@)) {
                Some(values) => out matches Ok(text) && text@ == rendered(
                    prompts@[i].template@,
                    values,
                ),
                None => out matches Err(UseError::Unresolved(e)) && e.variable@ == queries(
                    prompts@[i].template@,
                    text_of(piped),
                )[answers@.len() as int],
            },
        },
{
    match find_prompt(prompts, alias) {
        None => {
            assert forall|i: int| !first_by_alias(prompts@, alias@, i) by {
                if 0 <= i < prompts@.len() {
                    assert(prompts@[i].alias@ != alias@);
                }
            }
            Err(UseError::NotFound)
        },
        Some(i) => {
            proof {
                assert(first_by_alias(prompts@, alias@, i as int));
                let k = choose|k: int| first_by_alias(prompts@, alias@, k);
                if k < i {
                    assert(prompts@[k].alias@ != alias@);
                }
                if i < k {
                    assert(prompts@[i as int].alias@ != alias@);
                }
            }
            match process(prompts[i].template.as_str(), piped, answers) {
                Ok(text) => Ok(text),
                Err(e) => Err(UseError::Unresolved(e)),
            }
        },
    }
}

} // verus!
