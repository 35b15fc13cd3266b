//! The interactive selector: a list of stored templates with one of them
//! highlighted, moved by keys until one is chosen or the user leaves.
//!
//! The library holds the state, decides what each key does and says what
//! the two panes show; the caller owns the terminal, reads the keys and
//! draws.

use crate::storage::Prompt;
use crate::text::{join, joined, lines, lines_of, views};
use vstd::arithmetic::div_mod::{lemma_mod_add_multiples_vanish, lemma_mod_self_0, lemma_small_mod};
use vstd::prelude::*;

verus! {

/// A key event, as far as the selector tells keys apart.
#[derive(Clone, Copy, Debug, PartialEq, Eq)]
pub enum Key {
    Up,
    Down,
    Enter,
    Esc,
    Char(char),
    Other,
}

/// Where the selector stands after a key: still active, left with a chosen
/// alias, or left without one.
#[derive(Clone, Debug, PartialEq, Eq)]
pub enum Outcome {
    Active,
    Selected(String),
    Cancelled,
}

/// An [`Outcome`] with the alias as a character sequence.
pub enum Verdict {
    Active,
    Selected(Seq<char>),
    Cancelled,
}

impl View for Outcome {
    type V = Verdict;

    open spec fn view(&self) -> Verdict {
        match *self {
            Outcome::Active => Verdict::Active,
            Outcome::Selected(alias) => Verdict::Selected(alias@),
            Outcome::Cancelled => Verdict::Cancelled,
        }
    }
}

/// What a line of the detail pane is: the title line, a heading, ordinary
/// text, or the notice shown when there is nothing to show.
#[derive(Clone, Copy, Debug, PartialEq, Eq)]
pub enum Role {
    Title,
    Heading,
    Body,
    Notice,
}

/// One line of the detail pane.
#[derive(Clone, Debug, PartialEq, Eq)]
pub struct DetailLine {
    pub text: String,
    pub role: Role,
}

/// The highlighted index fits a list of `len` entries: it lies within the
/// list, and there is none exactly when the list is empty.
pub open spec fn valid_index(len: nat, index: Option<nat>) -> bool {
    match index {
        Some(i) => i < len,
        None => len == 0,
    }
}

/// The index that a fresh selector highlights.
pub open spec fn initial_index(len: nat) -> Option<nat> {
    if len > 0 {
        Some(0)
    } else {
        None
    }
}

/// The index after one step down: the next entry, the first after the last.
pub open spec fn index_after_down(len: nat, index: Option<nat>) -> Option<nat> {
    match index {
        Some(i) => if len > 0 {
            Some((((i + 1) as int) % (len as int)) as nat)
        } else {
            index
        },
        None => None,
    }
}

/// The index after one step up: the entry before, the last before the first.
pub open spec fn index_after_up(len: nat, index: Option<nat>) -> Option<nat> {
    match index {
        Some(i) => if len > 0 {
            Some((((i + len - 1) as int) % (len as int)) as nat)
        } else {
            index
        },
        None => None,
    }
}

/// The index after `key`.
pub open spec fn index_after(len: nat, index: Option<nat>, key: Key) -> Option<nat> {
    match key {
        Key::Down => index_after_down(len, index),
        Key::Up => index_after_up(len, index),
        _ => index,
    }
}

/// `key` leaves the selector without a choice.
pub open spec fn cancels(key: Key) -> bool {
    key == Key::Esc || key == Key::Char('q')
}

/// Where the selector stands after `key`, pressed with `index` highlighted.
pub open spec fn verdict(prompts: Seq<Prompt>, index: Option<nat>, key: Key) -> Verdict {
    if cancels(key) {
        Verdict::Cancelled
    } else if key == Key::Enter && index.is_some() {
        Verdict::Selected(prompts[index.unwrap() as int].alias@)
    } else {
        Verdict::Active
    }
}

/// The index after the keys of `keys` were handled one after the other,
/// up to the one on which the selector leaves the active state.
pub open spec fn index_after_keys(prompts: Seq<Prompt>, index: Option<nat>, keys: Seq<Key>) -> Option<
    nat,
>
    decreases keys.len(),
{
    if keys.len() == 0 || verdict(prompts, index, keys[0]) != Verdict::Active {
        index
    } else {
        index_after_keys(prompts, index_after(prompts.len(), index, keys[0]), keys.drop_first())
    }
}

/// Where the selector stands after the keys of `keys` were handled one
/// after the other: at the first key on which it leaves the active state,
/// or still active where there is none.
pub open spec fn verdict_after_keys(prompts: Seq<Prompt>, index: Option<nat>, keys: Seq<Key>) -> Verdict
    decreases keys.len(),
{
    if keys.len() == 0 {
        Verdict::Active
    } else if verdict(prompts, index, keys[0]) != Verdict::Active {
        verdict(prompts, index, keys[0])
    } else {
        verdict_after_keys(prompts, index_after(prompts.len(), index, keys[0]), keys.drop_first())
    }
}

/// No key breaks the invariant: after any key the highlighted index still
/// fits the list.
pub proof fn lemma_index_stays_valid(len: nat, index: Option<nat>, key: Key)
    requires
        valid_index(len, index),
    ensures
        valid_index(len, index_after(len, index, key)),
{
    if len > 0 {
        let i = index.unwrap();
        if i + 1 < len {
            lemma_small_mod(i + 1, len);
        } else {
            lemma_mod_self_0(len as int);
        }
        if i == 0 {
            lemma_small_mod((len - 1) as nat, len);
        } else {
            lemma_mod_add_multiples_vanish(i - 1, len as int);
            lemma_small_mod((i - 1) as nat, len);
        }
    }
}

/// A step up undoes a step down, and a step down undoes a step up.
pub proof fn lemma_up_undoes_down(len: nat, index: Option<nat>)
    requires
        valid_index(len, index),
    ensures
        index_after_up(len, index_after_down(len, index)) == index,
        index_after_down(len, index_after_up(len, index)) == index,
{
    if len > 0 {
        let i = index.unwrap();
        lemma_small_mod(0, len);
        lemma_small_mod((len - 1) as nat, len);
        lemma_mod_self_0(len as int);
        if i + 1 < len {
            lemma_small_mod(i + 1, len);
            lemma_mod_add_multiples_vanish(i as int, len as int);
            lemma_small_mod(i, len);
        }
        if i > 0 {
            lemma_mod_add_multiples_vanish(i - 1, len as int);
            lemma_small_mod((i - 1) as nat, len);
            lemma_small_mod(i, len);
        }
    }
}

/// The key `key`, `n` times.
pub open spec fn repeated(key: Key, n: nat) -> Seq<Key> {
    Seq::new(n, |k: int| key)
}

/// Stepping down `n` times from entry `i` of a list of `len` entries ends at
/// entry `(i + n) mod len`, with the selector still active.
pub proof fn lemma_steps_down(prompts: Seq<Prompt>, i: nat, n: nat)
    requires
        i < prompts.len(),
    ensures
        index_after_keys(prompts, Some(i), repeated(Key::Down, n)) == Some(
            (((i + n) as int) % (prompts.len() as int)) as nat,
        ),
        verdict_after_keys(prompts, Some(i), repeated(Key::Down, n)) == Verdict::Active,
    decreases n,
{
    let len = prompts.len() as int;
    let keys = repeated(Key::Down, n);
    if n == 0 {
        lemma_small_mod(i, prompts.len());
    } else {
        assert(keys[0] == Key::Down);
        assert(keys.drop_first() =~= repeated(Key::Down, (n - 1) as nat));
        if i + 1 < len {
            lemma_small_mod(i + 1, prompts.len());
            lemma_steps_down(prompts, i + 1, (n - 1) as nat);
        } else {
            lemma_mod_self_0(len);
            lemma_steps_down(prompts, 0, (n - 1) as nat);
            lemma_mod_add_multiples_vanish(n - 1, len);
        }
    }
}

/// Moving down as many times as the list has entries comes back to the
/// entry that was highlighted, whichever it was.
pub proof fn lemma_down_cycle(prompts: Seq<Prompt>, index: Option<nat>)
    requires
        prompts.len() >= 1,
        valid_index(prompts.len(), index),
    ensures
        index_after_keys(prompts, index, repeated(Key::Down, prompts.len())) == index,
        verdict_after_keys(prompts, index, repeated(Key::Down, prompts.len())) == Verdict::Active,
{
    let i = index.unwrap();
    lemma_steps_down(prompts, i, prompts.len());
    lemma_mod_add_multiples_vanish(i as int, prompts.len() as int);
    lemma_small_mod(i, prompts.len());
}

/// On an empty list up, down and enter do nothing: no entry is highlighted
/// before and none after, and the selector stays active.
pub proof fn lemma_empty_list_is_inert(prompts: Seq<Prompt>, key: Key)
    requires
        prompts.len() == 0,
        key == Key::Down || key == Key::Up || key == Key::Enter,
    ensures
        index_after(prompts.len(), None, key) == None::<nat>,
        verdict(prompts, None, key) == Verdict::Active,
{
}

/// The aliases of `prompts`, in their order.
pub open spec fn aliases_of(prompts: Seq<Prompt>) -> Seq<Seq<char>> {
    prompts.map_values(|p: Prompt| p.alias@)
}

/// The text of the detail pane for `prompt`, line by line: the alias, the
/// description, the tags in one line, and the template in full.
pub open spec fn detail_texts(prompt: Prompt) -> Seq<Seq<char>> {
    seq![
        "Alias: "@ + prompt.alias@,
        ""@,
        "Description:"@,
        prompt.description@,
        ""@,
        "Tags:"@,
        joined(views(prompt.tags@), ", "@),
        ""@,
        "Template:"@,
    ] + lines_of(prompt.template@)
}

/// The role of line `i` of the detail pane of a record.
pub open spec fn detail_role(i: int) -> Role {
    if i == 0 {
        Role::Title
    } else if i == 2 || i == 5 || i == 8 {
        Role::Heading
    } else {
        Role::Body
    }
}

/// The texts of a list of lines.
pub open spec fn texts_of(lines: Seq<DetailLine>) -> Seq<Seq<char>> {
    lines.map_values(|line: DetailLine| line.text@)
}

/// The state of the selector: the records in their order, and which one is
/// highlighted.
pub struct App {
    prompts: Vec<Prompt>,
    selected: Option<usize>,
}

impl App {
    /// The records that the selector lists.
    pub closed spec fn prompts(&self) -> Seq<Prompt> {
        self.prompts@
    }

    /// The index of the highlighted record.
    pub closed spec fn highlighted(&self) -> Option<nat> {
        match self.selected {
            Some(i) => Some(i as nat),
            None => None,
        }
    }

    /// The invariant of the state: a record is highlighted exactly when
    /// there is one, and it is one of the list.
    pub open spec fn wf(&self) -> bool {
        valid_index(self.prompts().len(), self.highlighted())
    }

    /// The selector over `prompts`, with the first record highlighted.
    pub fn new(prompts: Vec<Prompt>) -> (app: App)
        ensures
            app.wf(),
            app.prompts() == prompts@,
            app.highlighted() == initial_index(prompts@.len()),
    {
        let selected = if prompts.len() > 0 {
            Some(0)
        } else {
            None
        };
        App { prompts, selected }
    }

    /// Moves the highlight one record down, from the last to the first.
    pub fn next(&mut self)
        requires
            old(self).wf(),
        ensures
            final(self).wf(),
            final(self).prompts() == old(self).prompts(),
            final(self).highlighted() == index_after_down(
                old(self).prompts().len(),
                old(self).highlighted(),
            ),
    {
        if self.prompts.len() == 0 {
            return ;
        }
        let i = match self.selected {
            Some(i) => {
                proof {
                    let len = self.prompts@.len() as int;
                    if i + 1 < len {
                        lemma_small_mod((i + 1) as nat, len as nat);
                    } else {
                        lemma_mod_self_0(len);
                    }
                }
                if i >= self.prompts.len() - 1 {
                    0
                } else {
                    i + 1
                }
            },
            None => 0,
        };
        self.selected = Some(i);
    }

    /// Moves the highlight one record up, from the first to the last.
    pub fn previous(&mut self)
        requires
            old(self).wf(),
        ensures
            final(self).wf(),
            final(self).prompts() == old(self).prompts(),
            final(self).highlighted() == index_after_up(
                old(self).prompts().len(),
                old(self).highlighted(),
            ),
    {
        if self.prompts.len() == 0 {
            return ;
        }
        let i = match self.selected {
            Some(i) => {
                proof {
                    let len = self.prompts@.len() as int;
                    if i == 0 {
                        lemma_small_mod((len - 1) as nat, len as nat);
                    } else {
                        lemma_mod_add_multiples_vanish(i - 1, len);
                        lemma_small_mod((i - 1) as nat, len as nat);
                    }
                }
                if i == 0 {
                    self.prompts.len() - 1
                } else {
                    i - 1
                }
            },
            None => 0,
        };
        self.selected = Some(i);
    }

    /// The index of the highlighted record.
    pub fn selected(&self) -> (index: Option<usize>)
        ensures
            match index {
                Some(i) => self.highlighted() == Some(i as nat),
                None => self.highlighted().is_none(),
            },
    {
        self.selected
    }

    /// The number of records.
    pub fn len(&self) -> (n: usize)
        ensures
            n == self.prompts().len(),
    {
        self.prompts.len()
    }

    /// Handles one key. Up and down move the highlight; enter chooses the
    /// highlighted record; `q` and escape leave; any other key does nothing.
    pub fn handle_key(&mut self, key: Key) -> (outcome: Outcome)
        requires
            old(self).wf(),
        ensures
            final(self).wf(),
            final(self).prompts() == old(self).prompts(),
            final(self).highlighted() == index_after(
                old(self).prompts().len(),
                old(self).highlighted(),
                key,
            ),
            outcome@ == verdict(old(self).prompts(), old(self).highlighted(), key),
    {
        match key {
            Key::Char(c) => {
                if c == 'q' {
                    Outcome::Cancelled
                } else {
                    Outcome::Active
                }
            },
            Key::Esc => Outcome::Cancelled,
            Key::Down => {
                self.next();
                Outcome::Active
            },
            Key::Up => {
                self.previous();
                Outcome::Active
            },
            Key::Enter => {
                match self.selected {
                    Some(i) => Outcome::Selected(self.prompts[i].alias.clone()),
                    None => Outcome::Active,
                }
            },
            Key::Other => Outcome::Active,
        }
    }

    /// The left pane: the aliases of the records, in their order.
    pub fn aliases(&self) -> (out: Vec<String>)
        ensures
            views(out@) == aliases_of(self.prompts()),
    {
        let mut out: Vec<String> = Vec::new();
        let mut i: usize = 0;
        while i < self.prompts.len()
            invariant
                i <= self.prompts@.len(),
                out@.len() == i,
                forall|j: int| 0 <= j < i ==> (#[trigger] out@[j])@ == self.prompts@[j].alias@,
            decreases self.prompts.len() - i,
        {
            out.push(self.prompts[i].alias.clone());
            i += 1;
        }
        proof {
            assert(views(out@) =~= aliases_of(self.prompts()));
        }
        out
    }

    /// The right pane: the highlighted record in full, or one line of notice
    /// where the list is empty.
    pub fn detail(&self) -> (out: Vec<DetailLine>)
        requires
            self.wf(),
        ensures
            match self.highlighted() {
                Some(i) => texts_of(out@) == detail_texts(self.prompts()[i as int]) && forall|
                    k: int,
                | 0 <= k < out@.len() ==> (#[trigger] out@[k]).role == detail_role(k),
                None => out@.len() == 1 && out@[0].text@ == "No Prompts Found"@ && out@[0].role
                    == Role::Notice,
            },
    {
        match self.selected {
            Some(i) => detail_of(&self.prompts[i]),
            None => {
                let mut out: Vec<DetailLine> = Vec::new();
                out.push(DetailLine { text: "No Prompts Found".to_owned(), role: Role::Notice });
                out
            },
        }
    }
}

/// The detail pane for `prompt`.
pub fn detail_of(prompt: &Prompt) -> (out: Vec<DetailLine>)
    ensures
        texts_of(out@) == detail_texts(*prompt),
        forall|k: int| 0 <= k < out@.len() ==> (#[trigger] out@[k]).role == detail_role(k),
{
    let mut title = "Alias: ".to_owned();
    title.append(prompt.alias.as_str());
    let mut out: Vec<DetailLine> = Vec::new();
    out.push(DetailLine { text: title, role: Role::Title });
    out.push(DetailLine { text: String::new(), role: Role::Body });
    out.push(DetailLine { text: "Description:".to_owned(), role: Role::Heading });
    out.push(DetailLine { text: prompt.description.clone(), role: Role::Body });
    out.push(DetailLine { text: String::new(), role: Role::Body });
    out.push(DetailLine { text: "Tags:".to_owned(), role: Role::Heading });
    out.push(DetailLine { text: join(&prompt.tags, ", "), role: Role::Body });
    out.push(DetailLine { text: String::new(), role: Role::Body });
    out.push(DetailLine { text: "Template:".to_owned(), role: Role::Heading });
    let body = lines(prompt.template.as_str());
    let ghost head = out@;
    proof {
        reveal_strlit("");
        assert(""@ =~= Seq::<char>::empty());
    }
    let mut i: usize = 0;
    while i < body.len()
        invariant
            i <= body.len(),
            head.len() == 9,
            out@.len() == 9 + i,
            out@.subrange(0, 9) == head,
            forall|k: int| 0 <= k < out@.len() ==> (#[trigger] out@[k]).role == detail_role(k),
            forall|k: int| 0 <= k < i ==> (#[trigger] out@[9 + k]).text@ == body@[k]@,
        decreases body.len() - i,
    {
        let ghost before = out@;
        out.push(DetailLine { text: body[i].clone(), role: Role::Body });
        proof {
            assert(out@.subrange(0, 9) =~= before.subrange(0, 9));
            assert forall|k: int| 0 <= k < i + 1 implies (#[trigger] out@[9 + k]).text@
                == body@[k]@ by {
                if k < i {
                    assert(out@[9 + k] == before[9 + k]);
                }
            }
        }
        i += 1;
    }
    proof {
        let want = detail_texts(*prompt);
        let got = texts_of(out@);
        assert(got.len() == want.len());
        assert forall|k: int| 0 <= k < got.len() implies got[k] == want[k] by {
            if k < 9 {
                assert(out@[k] == out@.subrange(0, 9)[k]);
            } else {
                assert(out@[9 + (k - 9)].text@ == body@[k - 9]@);
                assert(views(body@)[k - 9] == body@[k - 9]@);
            }
        }
        assert(got =~= want);
    }
    out
}

/// Runs the selector over a given sequence of keys: handles them one after
/// the other until the selector leaves the active state or the keys end.
pub fn run_app(app: &mut App, keys: &Vec<Key>) -> (outcome: Outcome)
    requires
        old(app).wf(),
    ensures
        final(app).wf(),
        final(app).prompts() == old(app).prompts(),
        final(app).highlighted() == index_after_keys(
            old(app).prompts(),
            old(app).highlighted(),
            keys@,
        ),
        outcome@ == verdict_after_keys(old(app).prompts(), old(app).highlighted(), keys@),
{
    let mut i: usize = 0;
    let ghost prompts = app.prompts();
    let ghost start = app.highlighted();
    assert(keys@.skip(0) =~= keys@);
    while i < keys.len()
        invariant
            i <= keys.len(),
            app.wf(),
            app.prompts() == prompts,
            prompts == old(app).prompts(),
            start == old(app).highlighted(),
            index_after_keys(prompts, start, keys@) == index_after_keys(
                prompts,
                app.highlighted(),
                keys@.skip(i as int),
            ),
            verdict_after_keys(prompts, start, keys@) == verdict_after_keys(
                prompts,
                app.highlighted(),
                keys@.skip(i as int),
            ),
        decreases keys.len() - i,
    {
        proof {
            assert(keys@.skip(i as int)[0] == keys@[i as int]);
            assert(keys@.skip(i as int).drop_first() =~= keys@.skip(i + 1));
        }
        let outcome = app.handle_key(keys[i]);
        match outcome {
            Outcome::Active => {},
            _ => {
                return outcome;
            },
        }
        i += 1;
    }
    Outcome::Active
}

} // verus!
