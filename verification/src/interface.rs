//! The chooser itself: the query, the ranked matches, the selection, and
//! how key events change them.

use vstd::prelude::*;
use vstd::string::*;
use crate::ansi::{
    clear_seq, column_seq, invert_seq, no_invert_seq, push_clear, push_column, push_invert,
    push_no_invert, push_up, up_seq,
};
use crate::ranking::{
    filter_score, is_match_of, lemma_ranking, rank_matches, rank_of, ranking, score_candidates,
    scores_of, texts, RankedMatch,
};
use crate::terminal::Key;
use crate::text::{truncate, truncated};

verus! {

/// The most candidate rows that a frame shows.
pub const WINDOW_SIZE: usize = 10;

/// `std::io::Error`, carried through as it came.
#[verifier::external_type_specification]
#[verifier::external_body]
pub struct ExIoError(std::io::Error);

/// Why a session ended without a choice.
#[derive(Debug)]
pub enum Error {
    /// The user cancelled.
    Exit,
    /// Writing to or reading from the terminal failed.
    Write(std::io::Error),
    /// The terminal's mode could not be restored.
    Reset(crate::terminal::Error),
}

impl From<std::io::Error> for Error {
    fn from(err: std::io::Error) -> (r: Error) {
        Error::Write(err)
    }
}

impl vstd::std_specs::convert::FromSpecImpl<std::io::Error> for Error {
    open spec fn obeys_from_spec() -> bool {
        true
    }

    open spec fn from_spec(err: std::io::Error) -> Error {
        Error::Write(err)
    }
}

impl From<crate::terminal::Error> for Error {
    fn from(err: crate::terminal::Error) -> (r: Error) {
        Error::Reset(err)
    }
}

impl vstd::std_specs::convert::FromSpecImpl<crate::terminal::Error> for Error {
    open spec fn obeys_from_spec() -> bool {
        true
    }

    open spec fn from_spec(err: crate::terminal::Error) -> Error {
        Error::Reset(err)
    }
}

/// What the session does after a key event.
#[derive(Clone, Copy, Debug, PartialEq, Eq, Structural)]
pub enum Action {
    /// Nothing changed: no frame is drawn.
    Ignore,
    /// The state may have changed: draw a new frame.
    Render,
    /// The user confirmed: the session ends with the result.
    Confirm,
    /// The user cancelled: the session ends without a result.
    Cancel,
}

/// What an [`Interface`] holds, as mathematical values.
pub struct InterfaceView {
    /// The candidate texts, in the order given.
    pub choices: Seq<Seq<char>>,
    /// The query typed so far.
    pub search: Seq<char>,
    /// The ranked match list.
    pub matching: Seq<RankedMatch>,
    /// The selection index.
    pub selected: nat,
    /// The display width of the terminal.
    pub width: nat,
}

/// The action that a key asks for.
pub open spec fn action_of(key: Key) -> Action {
    match key {
        Key::Ctrl(c) => if c == 'c' || c == 'd' {
            Action::Cancel
        } else if c == 'n' || c == 'p' || c == 'h' {
            Action::Render
        } else {
            Action::Ignore
        },
        Key::Char(c) => if c == '\n' {
            Action::Confirm
        } else {
            Action::Render
        },
        Key::Backspace => Action::Render,
        Key::Other => Action::Ignore,
    }
}

/// The prompt that stands before the query.
pub open spec fn prompt() -> Seq<char> {
    seq!['>', ' ']
}

/// The start of a new row.
pub open spec fn line_break() -> Seq<char> {
    seq!['\r', '\n']
}

/// The frame that clears the chooser from the screen.
pub open spec fn clear_frame() -> Seq<char> {
    column_seq(1) + clear_seq()
}

/// The number of rows that a ranked match list of `len` items shows.
pub open spec fn rows_for(len: nat) -> nat {
    if len < WINDOW_SIZE {
        len
    } else {
        WINDOW_SIZE as nat
    }
}

/// The selection index `selected`, brought into the rows of a ranked match
/// list of `len` items: kept where it points at a row, else the last row,
/// or 0 where there is no row.
pub open spec fn clamp_to(selected: nat, len: nat) -> nat {
    if selected < rows_for(len) {
        selected
    } else if rows_for(len) > 0 {
        (rows_for(len) - 1) as nat
    } else {
        0
    }
}

impl InterfaceView {
    /// The number of candidate rows on screen.
    pub open spec fn visible(self) -> nat {
        rows_for(self.matching.len())
    }

    /// The selection points at a visible row, or is 0 where there is none.
    pub open spec fn selection_in_range(self) -> bool {
        if self.visible() == 0 {
            self.selected == 0
        } else {
            self.selected < self.visible()
        }
    }

    /// The ranked match list belongs to the query, and the selection is in
    /// range.
    pub open spec fn wf(self) -> bool {
        &&& self.choices.len() <= usize::MAX
        &&& self.matching == ranking(scores_of(self.search, self.choices))
        &&& self.selection_in_range()
    }

    /// The state with the selection brought back into range.
    pub open spec fn clamped(self) -> Self {
        InterfaceView { selected: clamp_to(self.selected, self.matching.len()), ..self }
    }

    /// The state after a recompute: the ranked match list is made anew from
    /// the query, and the selection is clamped, not reset.
    pub open spec fn refiltered(self) -> Self {
        InterfaceView {
            matching: ranking(scores_of(self.search, self.choices)),
            ..self
        }.clamped()
    }

    /// The state with `search` for its query, after a recompute.
    pub open spec fn searching(self, search: Seq<char>) -> Self {
        InterfaceView { search: search, ..self }.refiltered()
    }

    /// The state after the last character of the query is taken away, if
    /// it has one, and a recompute.
    pub open spec fn erased(self) -> Self {
        if self.search.len() > 0 {
            self.searching(self.search.drop_last())
        } else {
            self.searching(self.search)
        }
    }

    /// The state after a key event.
    pub open spec fn after(self, key: Key) -> Self {
        match key {
            Key::Ctrl(c) => if c == 'n' {
                InterfaceView { selected: self.selected + 1, ..self }.clamped()
            } else if c == 'p' {
                InterfaceView {
                    selected: if self.selected > 0 {
                        (self.selected - 1) as nat
                    } else {
                        0
                    },
                    ..self
                }.clamped()
            } else if c == 'h' {
                self.erased()
            } else {
                self
            },
            Key::Char(c) => if c == '\n' {
                self
            } else {
                self.searching(self.search.push(c))
            },
            Key::Backspace => self.erased(),
            Key::Other => self,
        }
    }

    /// What confirming yields: the text of the selected candidate, or the
    /// query itself where nothing matched.
    pub open spec fn result(self) -> Seq<char> {
        if self.selected < self.matching.len() {
            self.choices[self.matching[self.selected as int].index as int]
        } else {
            self.search
        }
    }

    /// The outcome of a session over `keys`: the state in which it ends, and
    /// the result, or `None` where the user cancelled. The session ends at
    /// the first key that confirms or cancels, or when the keys run out,
    /// which confirms.
    pub open spec fn run(self, keys: Seq<Key>) -> (Self, Option<Seq<char>>)
        decreases keys.len(),
    {
        if keys.len() == 0 {
            (self, Some(self.result()))
        } else {
            match action_of(keys[0]) {
                Action::Cancel => (self, None),
                Action::Confirm => (self, Some(self.result())),
                _ => self.after(keys[0]).run(keys.drop_first()),
            }
        }
    }

    /// The state after all of `keys`, none of which ends the session.
    pub open spec fn after_all(self, keys: Seq<Key>) -> Self
        decreases keys.len(),
    {
        if keys.len() == 0 {
            self
        } else {
            self.after(keys[0]).after_all(keys.drop_first())
        }
    }

    /// The text of row `i`: its candidate, cut to the display width.
    pub open spec fn row_text(self, i: int) -> Seq<char> {
        truncated(self.choices[self.matching[i].index as int], self.width)
    }

    /// Row `i` as it is drawn: on a new line, inverted where selected.
    pub open spec fn row(self, i: int) -> Seq<char> {
        if i == self.selected {
            line_break() + invert_seq() + self.row_text(i) + no_invert_seq()
        } else {
            line_break() + self.row_text(i)
        }
    }

    /// The first `n` rows.
    pub open spec fn rows(self, n: nat) -> Seq<char>
        decreases n,
    {
        if n == 0 {
            Seq::empty()
        } else {
            self.rows((n - 1) as nat) + self.row(n - 1)
        }
    }

    /// A whole frame: the cleared screen, the prompt with the query, the
    /// visible rows, and the cursor put back behind the query.
    pub open spec fn frame(self) -> Seq<char> {
        let head = clear_frame() + prompt() + self.search + self.rows(self.visible());
        if self.visible() > 0 {
            head + up_seq(self.visible()) + column_seq(self.search.len() + 3)
        } else {
            head
        }
    }
}

/// Whether a key leaves the session running.
pub open spec fn goes_on(key: Key) -> bool {
    action_of(key) == Action::Render || action_of(key) == Action::Ignore
}

/// After a recompute the ranked match list belongs to the query and the
/// selection is in range, whatever they were before.
pub proof fn lemma_refiltered_wf(s: InterfaceView)
    requires
        s.choices.len() <= usize::MAX,
    ensures
        s.refiltered().wf(),
        s.refiltered().selection_in_range(),
{
}

/// In every well-formed state the ranked match list holds only candidates
/// that the filter scored for the query, each at most once, and the scores
/// never rise along the list.
pub proof fn lemma_matching_ranked(s: InterfaceView)
    requires
        s.wf(),
    ensures
        s.matching.len() <= s.choices.len(),
        forall|k: int|
            0 <= k < s.matching.len() ==> {
                let m = #[trigger] s.matching[k];
                &&& m.index < s.choices.len()
                &&& filter_score(s.search, s.choices[m.index as int]) is Some
                &&& m.score == rank_of(filter_score(s.search, s.choices[m.index as int])->0)
            },
        forall|a: int, b: int|
            0 <= a < b < s.matching.len() ==> #[trigger] s.matching[a].score
                >= #[trigger] s.matching[b].score,
        forall|a: int, b: int|
            0 <= a < b < s.matching.len() ==> #[trigger] s.matching[a].index
                != #[trigger] s.matching[b].index,
{
    let scores = scores_of(s.search, s.choices);
    lemma_ranking(scores);
    assert forall|k: int| 0 <= k < s.matching.len() implies {
        let m = #[trigger] s.matching[k];
        &&& m.index < s.choices.len()
        &&& filter_score(s.search, s.choices[m.index as int]) is Some
        &&& m.score == rank_of(filter_score(s.search, s.choices[m.index as int])->0)
    } by {
        assert(is_match_of(s.matching[k], scores));
    }
}

/// Recomputing twice gives what recomputing once gives.
pub proof fn lemma_refiltered_twice(s: InterfaceView)
    ensures
        s.refiltered().refiltered() == s.refiltered(),
{
}

/// Every key event leaves the ranked match list with the query and the
/// selection in range.
pub proof fn lemma_after_wf(s: InterfaceView, key: Key)
    requires
        s.wf(),
    ensures
        s.after(key).wf(),
        s.after(key).selection_in_range(),
{
}

/// Any sequence of key events leaves the ranked match list with the query
/// and the selection in range.
pub proof fn lemma_after_all_wf(s: InterfaceView, keys: Seq<Key>)
    requires
        s.wf(),
    ensures
        s.after_all(keys).wf(),
        s.after_all(keys).selection_in_range(),
    decreases keys.len(),
{
    if keys.len() > 0 {
        lemma_after_wf(s, keys[0]);
        lemma_after_all_wf(s.after(keys[0]), keys.drop_first());
    }
}

/// Confirming yields the text of the candidate at the selection where
/// anything matched, and the query where nothing did.
pub proof fn lemma_result(s: InterfaceView)
    requires
        s.wf(),
    ensures
        s.matching.len() > 0 ==> s.result() == s.choices[s.matching[s.selected as int].index as int],
        s.matching.len() > 0 ==> s.matching[s.selected as int].index < s.choices.len(),
        s.matching.len() == 0 ==> s.result() == s.search,
{
    if s.matching.len() > 0 {
        let scores = scores_of(s.search, s.choices);
        lemma_ranking(scores);
        assert(is_match_of(s.matching[s.selected as int], scores));
    }
}

/// Backspace on an empty query changes nothing.
pub proof fn lemma_backspace_on_empty(s: InterfaceView)
    requires
        s.wf(),
        s.search.len() == 0,
    ensures
        s.after(Key::Backspace) == s,
        s.after(Key::Ctrl('h')) == s,
{
}

/// A session whose keys run out confirms in the state that the keys led
/// to.
pub proof fn lemma_run_to_the_end(s: InterfaceView, keys: Seq<Key>)
    requires
        forall|i: int| 0 <= i < keys.len() ==> goes_on(#[trigger] keys[i]),
    ensures
        s.run(keys) == (s.after_all(keys), Some(s.after_all(keys).result())),
    decreases keys.len(),
{
    if keys.len() > 0 {
        assert(goes_on(keys[0]));
        let rest = keys.drop_first();
        assert forall|i: int| 0 <= i < rest.len() implies goes_on(#[trigger] rest[i]) by {
            assert(rest[i] == keys[i + 1]);
        }
        lemma_run_to_the_end(s.after(keys[0]), rest);
    }
}

/// A session ends at the first key that confirms or cancels, in the state
/// that the keys before it led to. Cancelling yields no result, whatever
/// the state; confirming always yields one, be it the empty query. What
/// follows that key plays no part.
pub proof fn lemma_run_stops(s: InterfaceView, before: Seq<Key>, key: Key, rest: Seq<Key>)
    requires
        forall|i: int| 0 <= i < before.len() ==> goes_on(#[trigger] before[i]),
        !goes_on(key),
    ensures
        action_of(key) == Action::Cancel ==> s.run(before + seq![key] + rest) == (
            s.after_all(before),
            None::<Seq<char>>,
        ),
        action_of(key) == Action::Confirm ==> s.run(before + seq![key] + rest) == (
            s.after_all(before),
            Some(s.after_all(before).result()),
        ),
    decreases before.len(),
{
    let keys = before + seq![key] + rest;
    if before.len() == 0 {
        assert(keys[0] == key);
    } else {
        assert(keys[0] == before[0]);
        assert(goes_on(before[0]));
        let shorter = before.drop_first();
        assert forall|i: int| 0 <= i < shorter.len() implies goes_on(#[trigger] shorter[i]) by {
            assert(shorter[i] == before[i + 1]);
        }
        assert(keys.drop_first() =~= shorter + seq![key] + rest);
        lemma_run_stops(s.after(before[0]), shorter, key, rest);
    }
}

/// A frame never shows more than [`WINDOW_SIZE`] rows.
pub proof fn lemma_visible_rows(s: InterfaceView)
    ensures
        s.visible() <= WINDOW_SIZE,
        s.visible() <= s.matching.len(),
{
}

/// What changes during a session. It is replaced as a whole, so that the
/// ranked match list and the query never part.
struct Session {
    search: String,
    matching: Vec<RankedMatch>,
    selected: usize,
}

/// The state of a chooser session: the candidates, the query, the ranked
/// match list and the selection.
///
/// The ranked match list always belongs to the query, and the selection
/// always points at a visible row (or is 0 where there is none): every
/// function relies on it and keeps it so.
pub struct Interface {
    choices: Vec<String>,
    width: usize,
    session: Session,
}

impl View for Interface {
    type V = InterfaceView;

    closed spec fn view(&self) -> InterfaceView {
        InterfaceView {
            choices: texts(self.choices@),
            search: self.session.search@,
            matching: self.session.matching@,
            selected: self.session.selected as nat,
            width: self.width as nat,
        }
    }
}

/// Computes [`rows_for`].
pub fn visible_rows(len: usize) -> (rows: usize)
    ensures
        rows == rows_for(len as nat),
        rows <= WINDOW_SIZE,
{
    if len < WINDOW_SIZE {
        len
    } else {
        WINDOW_SIZE
    }
}

/// Brings a selection index into the rows of a ranked match list of `len`
/// items.
pub fn clamp_selected(selected: usize, len: usize) -> (r: usize)
    ensures
        r == clamp_to(selected as nat, len as nat),
{
    let max = visible_rows(len);
    if selected < max {
        selected
    } else if max > 0 {
        max - 1
    } else {
        0
    }
}

impl Interface {
    #[verifier::type_invariant]
    spec fn inv(&self) -> bool {
        self@.wf()
    }

    /// Creates a chooser over `choices` for a terminal that is `width`
    /// characters wide, with an empty query and every candidate ranked for
    /// it.
    pub fn with_choices(choices: Vec<String>, width: usize) -> (r: Interface)
        ensures
            r@.wf(),
            r@.choices == texts(choices@),
            r@.search == Seq::<char>::empty(),
            r@.selected == 0,
            r@.width == width,
    {
        let search = String::new();
        let scores = score_candidates(search.as_str(), &choices);
        let matching = rank_matches(&scores);
        assert(texts(choices@).len() == choices.len());
        Interface {
            choices: choices,
            width: width,
            session: Session { search: search, matching: matching, selected: 0 },
        }
    }

    /// Runs a session over `keys`. It ends at the first key that confirms
    /// or cancels, or when the keys run out, which confirms. Confirming
    /// yields the selected candidate, or the query where nothing matched;
    /// cancelling yields `Error::Exit`.
    pub fn run(&mut self, keys: &Vec<Key>) -> (r: Result<String, Error>)
        ensures
            old(self)@.wf(),
            final(self)@.wf(),
            final(self)@ == old(self)@.run(keys@).0,
            match r {
                Ok(text) => old(self)@.run(keys@).1 == Some(text@),
                Err(e) => e is Exit && old(self)@.run(keys@).1 is None,
            },
    {
        proof {
            use_type_invariant(&*self);
        }
        let mut i: usize = 0;
        assert(keys@.skip(0) =~= keys@);
        while i < keys.len()
            invariant
                i <= keys.len(),
                old(self)@.wf(),
                self@.run(keys@.skip(i as int)) == old(self)@.run(keys@),
            decreases keys.len() - i,
        {
            let key = keys[i];
            proof {
                assert(keys@.skip(i as int)[0] == key);
                assert(keys@.skip(i as int).drop_first() =~= keys@.skip(i + 1));
            }
            match self.handle(key) {
                Action::Cancel => {
                    return Err(Error::Exit);
                },
                Action::Confirm => {
                    return Ok(self.result().to_owned());
                },
                _ => {},
            }
            i += 1;
        }
        Ok(self.result().to_owned())
    }

    /// Takes one key event: changes the state as the key asks, and says
    /// what the session is to do next.
    pub fn handle(&mut self, key: Key) -> (action: Action)
        ensures
            old(self)@.wf(),
            final(self)@.wf(),
            final(self)@ == old(self)@.after(key),
            action == action_of(key),
    {
        proof {
            use_type_invariant(&*self);
        }
        match key {
            Key::Ctrl(c) => {
                if c == 'c' || c == 'd' {
                    Action::Cancel
                } else if c == 'n' {
                    let wanted = self.session.selected + 1;
                    self.session.selected = clamp_selected(wanted, self.session.matching.len());
                    Action::Render
                } else if c == 'p' {
                    let wanted = if self.session.selected > 0 {
                        self.session.selected - 1
                    } else {
                        0
                    };
                    self.session.selected = clamp_selected(wanted, self.session.matching.len());
                    Action::Render
                } else if c == 'h' {
                    self.erase();
                    Action::Render
                } else {
                    Action::Ignore
                }
            },
            Key::Char(c) => {
                if c == '\n' {
                    Action::Confirm
                } else {
                    let mut search = self.session.search.clone();
                    search.push(c);
                    self.filter_choices(search);
                    Action::Render
                }
            },
            Key::Backspace => {
                self.erase();
                Action::Render
            },
            Key::Other => Action::Ignore,
        }
    }

    /// Takes the last character off the query, if it has one, and
    /// recomputes.
    fn erase(&mut self)
        ensures
            final(self)@ == old(self)@.erased(),
    {
        let mut search = self.session.search.clone();
        search.pop();
        self.filter_choices(search);
    }

    /// Makes `search` the query, recomputes the ranked match list from it
    /// and clamps the selection. The list then holds only candidates that
    /// the filter scored, the higher score first.
    pub fn filter_choices(&mut self, search: String)
        ensures
            final(self)@.wf(),
            final(self)@ == old(self)@.searching(search@),
            forall|k: int|
                0 <= k < final(self)@.matching.len() ==> {
                    let m = #[trigger] final(self)@.matching[k];
                    &&& m.index < final(self)@.choices.len()
                    &&& filter_score(search@, final(self)@.choices[m.index as int]) is Some
                },
            forall|a: int, b: int|
                0 <= a < b < final(self)@.matching.len() ==> #[trigger] final(self)@.matching[a].score
                    >= #[trigger] final(self)@.matching[b].score,
    {
        let scores = score_candidates(search.as_str(), &self.choices);
        let matching = rank_matches(&scores);
        let selected = clamp_selected(self.session.selected, matching.len());
        proof {
            assert(scores@.len() == self.choices.len());
            lemma_ranking(scores@);
            assert forall|k: int| 0 <= k < matching@.len() implies {
                let m = #[trigger] matching@[k];
                &&& m.index < self@.choices.len()
                &&& filter_score(search@, self@.choices[m.index as int]) is Some
            } by {
                assert(is_match_of(matching@[k], scores@));
            }
        }
        self.session = Session { search: search, matching: matching, selected: selected };
    }

    /// What confirming yields now: the text of the selected candidate, or
    /// the query itself where nothing matched.
    pub fn result(&self) -> (r: &str)
        ensures
            self@.wf(),
            r@ == self@.result(),
    {
        proof {
            use_type_invariant(self);
        }
        if self.session.selected < self.session.matching.len() {
            proof {
                lemma_ranking(scores_of(self@.search, self@.choices));
                assert(is_match_of(
                    self@.matching[self.session.selected as int],
                    scores_of(self@.search, self@.choices),
                ));
            }
            let index = self.session.matching[self.session.selected].index;
            self.choices[index].as_str()
        } else {
            self.session.search.as_str()
        }
    }

    /// Draws a whole frame: the cleared screen, the prompt with the query,
    /// the visible rows, and the cursor put back behind the query.
    pub fn render(&self) -> (frame: String)
        ensures
            self@.wf(),
            frame@ == self@.frame(),
    {
        proof {
            use_type_invariant(self);
        }
        let mut frame = String::new();
        push_column(&mut frame, 1);
        push_clear(&mut frame);
        frame.push('>');
        frame.push(' ');
        frame.append(self.session.search.as_str());
        assert(frame@ =~= clear_frame() + prompt() + self@.search);
        let n = self.render_choices(&mut frame);
        if n > 0 {
            let typed = self.session.search.as_str().unicode_len();
            push_up(&mut frame, n as u128);
            push_column(&mut frame, typed as u128 + 3);
        }
        frame
    }

    /// Appends the visible rows to `out`, the selected one inverted, and
    /// returns how many there are: never more than [`WINDOW_SIZE`].
    pub fn render_choices(&self, out: &mut String) -> (n: usize)
        ensures
            n == self@.visible(),
            n <= WINDOW_SIZE,
            final(out)@ == old(out)@ + self@.rows(n as nat),
    {
        let n = visible_rows(self.session.matching.len());
        let mut i: usize = 0;
        assert(out@ =~= old(out)@ + self@.rows(0));
        while i < n
            invariant
                i <= n <= self.session.matching.len(),
                out@ == old(out)@ + self@.rows(i as nat),
            decreases n - i,
        {
            proof {
                use_type_invariant(self);
                lemma_ranking(scores_of(self@.search, self@.choices));
                assert(is_match_of(self@.matching[i as int], scores_of(self@.search, self@.choices)));
            }
            let ghost before = out@;
            let index = self.session.matching[i].index;
            let shown = truncate(self.choices[index].as_str(), self.width);
            assert(shown@ == self@.row_text(i as int));
            out.push('\r');
            out.push('\n');
            if i == self.session.selected {
                push_invert(out);
                out.append(shown);
                push_no_invert(out);
            } else {
                out.append(shown);
            }
            assert(out@ =~= before + self@.row(i as int));
            i += 1;
            assert(out@ =~= old(out)@ + self@.rows(i as nat));
        }
        n
    }

    /// The frame that takes the chooser off the screen when the session
    /// ends.
    pub fn clear(&self) -> (frame: String)
        ensures
            frame@ == clear_frame(),
    {
        let mut frame = String::new();
        push_column(&mut frame, 1);
        push_clear(&mut frame);
        assert(frame@ =~= clear_frame());
        frame
    }

    /// The query typed so far.
    pub fn search(&self) -> (r: &str)
        ensures
            r@ == self@.search,
    {
        self.session.search.as_str()
    }

    /// The selection index.
    pub fn selected(&self) -> (r: usize)
        ensures
            r == self@.selected,
    {
        self.session.selected
    }

    /// The ranked match list.
    pub fn matching(&self) -> (r: &Vec<RankedMatch>)
        ensures
            r@ == self@.matching,
    {
        &self.session.matching
    }

    /// The candidates.
    pub fn choices(&self) -> (r: &Vec<String>)
        ensures
            texts(r@) == self@.choices,
    {
        &self.choices
    }

    /// The display width that rows are cut to.
    pub fn width(&self) -> (r: usize)
        ensures
            r == self@.width,
    {
        self.width
    }
}

} // verus!
