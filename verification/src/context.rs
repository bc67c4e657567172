//! The context expander.
//!
//! Given a matched fragment's turn range inside its conversation and a
//! requested context width, compute the display window and mark which turns
//! are matches and which are surrounding context. When the range is out of
//! bounds against the loaded turn sequence the caller falls back to the
//! stored fragment text; that decision is this module's `None`.

use vstd::prelude::*;
use crate::session::Turn;

verus! {

/// One turn prepared for display.
pub struct ContextTurn {
    /// The turn's position in the conversation.
    pub index: usize,
    /// Whether the turn is inside the matched range (as opposed to being
    /// pure context around it).
    pub is_match: bool,
    pub user_text: String,
    pub assistant_text: String,
}

/// The display window for a match at `[turn_start, turn_end)` with `c`
/// context turns in an `n`-turn conversation: `max(0, start-c)` up to
/// `min(n, end+c)`.
pub open spec fn window_lo(turn_start: int, c: int) -> int {
    if turn_start >= c {
        turn_start - c
    } else {
        0
    }
}

/// The exclusive upper bound of the display window.
pub open spec fn window_hi(turn_end: int, c: int, n: int) -> int {
    if turn_end + c <= n {
        turn_end + c
    } else {
        n
    }
}

/// Expand a match at `[turn_start, turn_end)` to `c` turns of context.
///
/// Succeeds exactly when the conversation has turns, the range is a
/// nonempty forward range, and it starts in bounds; then the window covers `[max(0, start-c), min(len, end+c))`, each
/// turn keeps its text, and a turn is marked as a match exactly when it
/// lies inside `[turn_start, turn_end)`. `None` is the fallback: display
/// the stored fragment text instead.
pub fn expand_context(
    turns: &Vec<Turn>,
    turn_start: usize,
    turn_end: usize,
    c: usize,
) -> (r: Option<Vec<ContextTurn>>)
    ensures
        r is Some <==> turns@.len() > 0 && (turn_start as int) < turns@.len()
            && turn_start < turn_end,
        r is Some ==> ({
            let lo = window_lo(turn_start as int, c as int);
            let hi = window_hi(turn_end as int, c as int, turns@.len() as int);
            let v = r->Some_0;
            &&& v@.len() == hi - lo
            &&& forall|k: int| 0 <= k < v@.len()
                ==> (#[trigger] v@[k]).index == lo + k
                    && v@[k].is_match == (turn_start <= lo + k < turn_end)
                    && v@[k].user_text@ == turns@[lo + k].user_text@
                    && v@[k].assistant_text@ == turns@[lo + k].assistant_text@
        }),
{
    let n = turns.len();
    if n == 0 || turn_start >= n || turn_end <= turn_start {
        return None;
    }
    let lo = if turn_start >= c { turn_start - c } else { 0 };
    let hi = if turn_end <= n && c <= n - turn_end { turn_end + c } else { n };
    let mut v: Vec<ContextTurn> = Vec::new();
    let mut i = lo;
    proof {
        assert(lo == window_lo(turn_start as int, c as int));
        assert(hi == window_hi(turn_end as int, c as int, n as int));
        assert(lo <= hi <= n);
    }
    while i < hi
        invariant
            n == turns@.len(),
            lo <= i <= hi <= n,
            v@.len() == i - lo,
            forall|k: int| 0 <= k < v@.len()
                ==> (#[trigger] v@[k]).index == lo + k
                    && v@[k].is_match == (turn_start <= lo + k < turn_end)
                    && v@[k].user_text@ == turns@[lo + k].user_text@
                    && v@[k].assistant_text@ == turns@[lo + k].assistant_text@,
        decreases hi - i,
    {
        let t = &turns[i];
        v.push(ContextTurn {
            index: i,
            is_match: turn_start <= i && i < turn_end,
            user_text: t.user_text.clone(),
            assistant_text: t.assistant_text.clone(),
        });
        i += 1;
    }
    Some(v)
}

/// A per-search cache of loaded conversations, so several results from the
/// same conversation parse it only once. Owned by one search invocation.
pub struct TurnCache {
    ids: Vec<String>,
    turns: Vec<Vec<Turn>>,
}

impl TurnCache {
    /// The cached conversation identifiers, in insertion order.
    pub closed spec fn ids_view(self) -> Seq<Seq<char>> {
        Seq::new(self.ids@.len(), |i: int| self.ids@[i]@)
    }

    /// The cached turn sequences, slot by slot.
    pub closed spec fn turns_view(self) -> Seq<Seq<crate::session::TurnView>> {
        Seq::new(self.turns@.len(), |i: int| self.turns@[i].deep_view())
    }

    /// The cache's internal shape.
    pub closed spec fn wf(self) -> bool {
        self.ids@.len() == self.turns@.len()
    }

    /// An empty cache.
    pub fn new() -> (r: TurnCache)
        ensures
            r.wf(),
            r.ids_view() == Seq::<Seq<char>>::empty(),
    {
        let r = TurnCache { ids: Vec::new(), turns: Vec::new() };
        proof {
            assert(r.ids_view() =~= Seq::<Seq<char>>::empty());
        }
        r
    }

    /// Look a conversation up; its slot index when cached.
    pub fn get_index(&self, id: &str) -> (r: Option<usize>)
        requires
            self.wf(),
        ensures
            r is Some ==> (r->Some_0 as int) < self.ids_view().len()
                && self.ids_view()[r->Some_0 as int] == id@,
            r is None ==> forall|i: int| 0 <= i < self.ids_view().len()
                ==> self.ids_view()[i] != id@,
    {
        let n = self.ids.len();
        for i in 0..n
            invariant
                n == self.ids@.len(),
                forall|k: int| 0 <= k < i ==> self.ids_view()[k] != id@,
        {
            proof {
                assert(self.ids_view()[i as int] == self.ids@[i as int]@);
            }
            if crate::text::str_eq(self.ids[i].as_str(), id) {
                return Some(i);
            }
        }
        None
    }

    /// The turn sequence in a slot.
    pub fn turns_at(&self, i: usize) -> (r: &Vec<Turn>)
        requires
            self.wf(),
            (i as int) < self.ids_view().len(),
        ensures
            r.deep_view() == self.turns_view()[i as int],
    {
        &self.turns[i]
    }

    /// Cache a conversation's turns.
    pub fn insert(&mut self, id: String, turns: Vec<Turn>)
        requires
            old(self).wf(),
        ensures
            final(self).wf(),
            final(self).ids_view() == old(self).ids_view().push(id@),
            final(self).turns_view() == old(self).turns_view().push(turns.deep_view()),
    {
        let ghost tv = turns.deep_view();
        self.ids.push(id);
        self.turns.push(turns);
        proof {
            assert(self.ids_view() =~= old(self).ids_view().push(self.ids@.last()@));
            assert(self.turns_view() =~~= old(self).turns_view().push(tv));
        }
    }
}

} // verus!
