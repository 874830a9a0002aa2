//! The in-memory state store: two ordered lists of to-do items plus the
//! text-entry buffer, and the transition rules that mutate them.

use vstd::prelude::*;
use vstd::seq_lib::group_seq_properties;

verus! {

broadcast use group_seq_properties;

/// One to-do entry: free text plus the id assigned at creation time.
pub struct Item {
    pub value: String,
    pub id: u32,
}

/// Mathematical image of an `Item`: the text as a sequence of characters.
pub struct ItemView {
    pub value: Seq<char>,
    pub id: u32,
}

impl View for Item {
    type V = ItemView;

    open spec fn view(&self) -> ItemView {
        ItemView { value: self.value@, id: self.id }
    }
}

impl Clone for Item {
    fn clone(&self) -> (r: Self)
        ensures
            r@ == self@,
    {
        Item { value: self.value.clone(), id: self.id }
    }
}

/// The views of a sequence of items, in order.
pub open spec fn items_view(s: Seq<Item>) -> Seq<ItemView> {
    s.map_values(|it: Item| it@)
}

/// The view of an optional item.
pub open spec fn opt_item_view(o: Option<Item>) -> Option<ItemView> {
    match o {
        Option::None => Option::None,
        Option::Some(it) => Option::Some(it@),
    }
}

/// The whole application state: the entry buffer and the two lists.
pub struct AppState {
    pub input_buffer: String,
    pub pending: Vec<Item>,
    pub completed: Vec<Item>,
}

/// Mathematical image of an `AppState`.
pub struct StateView {
    pub input_buffer: Seq<char>,
    pub pending: Seq<ItemView>,
    pub completed: Seq<ItemView>,
}

impl View for AppState {
    type V = StateView;

    open spec fn view(&self) -> StateView {
        StateView {
            input_buffer: self.input_buffer@,
            pending: items_view(self.pending@),
            completed: items_view(self.completed@),
        }
    }
}

/// The characters removed from the ends of the entry buffer before an item
/// is created.
pub open spec fn is_space(c: char) -> bool {
    c == ' ' || c == '\t' || c == '\n' || c == '\r'
}

/// `s` without its leading spaces.
pub open spec fn trim_front(s: Seq<char>) -> Seq<char>
    decreases s.len(),
{
    if s.len() > 0 && is_space(s[0]) {
        trim_front(s.drop_first())
    } else {
        s
    }
}

/// `s` without its trailing spaces.
pub open spec fn trim_back(s: Seq<char>) -> Seq<char>
    decreases s.len(),
{
    if s.len() > 0 && is_space(s.last()) {
        trim_back(s.drop_last())
    } else {
        s
    }
}

/// `s` without leading and trailing spaces.
pub open spec fn trimmed(s: Seq<char>) -> Seq<char> {
    trim_back(trim_front(s))
}

/// `s` with every item whose id equals `id` removed; the relative order of
/// the remaining items is unchanged.
pub open spec fn without_id(s: Seq<ItemView>, id: u32) -> Seq<ItemView> {
    s.filter(|it: ItemView| it.id != id)
}

/// The first item of `s` whose id equals `id`, if any.
pub open spec fn first_with_id(s: Seq<ItemView>, id: u32) -> Option<ItemView>
    decreases s.len(),
{
    if s.len() == 0 {
        Option::None
    } else if s[0].id == id {
        Option::Some(s[0])
    } else {
        first_with_id(s.drop_first(), id)
    }
}

/// Replacing the entry buffer changes nothing else.
pub open spec fn set_input_buffer_spec(st: StateView, text: Seq<char>) -> StateView {
    StateView { input_buffer: text, ..st }
}

/// Adding an item: if the trimmed entry buffer is non-empty, append an item
/// holding that trimmed text, with the current length of the pending list as
/// its id, and clear the buffer; otherwise change nothing.
pub open spec fn add_item_spec(st: StateView) -> StateView {
    let t = trimmed(st.input_buffer);
    if t.len() == 0 {
        st
    } else {
        StateView {
            input_buffer: Seq::empty(),
            pending: st.pending.push(ItemView { value: t, id: st.pending.len() as u32 }),
            completed: st.completed,
        }
    }
}

/// Removing from the pending list deletes every pending item with that id.
pub open spec fn remove_from_pending_spec(st: StateView, id: u32) -> StateView {
    StateView { pending: without_id(st.pending, id), ..st }
}

/// Removing from the completed list deletes every completed item with that id.
pub open spec fn remove_from_completed_spec(st: StateView, id: u32) -> StateView {
    StateView { completed: without_id(st.completed, id), ..st }
}

/// Completing an item: every pending item with that id leaves the pending
/// list, and the first of them is appended to the tail of the completed
/// list. Without a match nothing changes.
pub open spec fn complete_item_spec(st: StateView, id: u32) -> StateView {
    match first_with_id(st.pending, id) {
        Option::None => st,
        Option::Some(it) => StateView {
            pending: without_id(st.pending, id),
            completed: st.completed.push(it),
            ..st
        },
    }
}

/// Reopening an item: every completed item with that id leaves the completed
/// list, and the first of them is appended to the tail of the pending list.
/// Without a match nothing changes.
pub open spec fn reopen_item_spec(st: StateView, id: u32) -> StateView {
    match first_with_id(st.completed, id) {
        Option::None => st,
        Option::Some(it) => StateView {
            pending: st.pending.push(it),
            completed: without_id(st.completed, id),
            ..st
        },
    }
}

/// Adding after typing: for any state and any text whose trimmed form is
/// non-empty, setting the entry buffer to that text and then adding an item
/// grows the pending list by exactly one item holding the trimmed text, with
/// the pending list's former length as its id, and empties the entry buffer;
/// the completed list is untouched.
pub proof fn lemma_add_after_set_input(st: StateView, text: Seq<char>)
    requires
        trimmed(text).len() > 0,
    ensures
        add_item_spec(set_input_buffer_spec(st, text)).pending == st.pending.push(
            ItemView { value: trimmed(text), id: st.pending.len() as u32 },
        ),
        add_item_spec(set_input_buffer_spec(st, text)).input_buffer == Seq::<char>::empty(),
        add_item_spec(set_input_buffer_spec(st, text)).completed == st.completed,
{
}

/// Adding with an entry buffer that is empty or all spaces changes nothing:
/// neither list moves and the buffer keeps its text.
pub proof fn lemma_add_item_blank_is_no_op(st: StateView)
    requires
        trimmed(st.input_buffer).len() == 0,
    ensures
        add_item_spec(st) == st,
{
}

proof fn lemma_first_with_id_none(s: Seq<ItemView>, id: u32)
    requires
        forall|k: int| 0 <= k < s.len() ==> (#[trigger] s[k]).id != id,
    ensures
        first_with_id(s, id) is None,
    decreases s.len(),
{
    if s.len() == 0 {
    } else {
        assert(s[0].id != id);
        let d = s.drop_first();
        assert forall|k: int| 0 <= k < d.len() implies (#[trigger] d[k]).id != id by {
            assert(d[k] == s[k + 1]);
        }
        lemma_first_with_id_none(d, id);
    }
}

proof fn lemma_without_id_id_free(s: Seq<ItemView>, id: u32)
    requires
        forall|k: int| 0 <= k < s.len() ==> (#[trigger] s[k]).id != id,
    ensures
        without_id(s, id) == s,
    decreases s.len(),
{
    reveal(Seq::filter);
    if s.len() == 0 {
        assert(without_id(s, id) =~= s);
    } else {
        let d = s.drop_last();
        assert forall|k: int| 0 <= k < d.len() implies (#[trigger] d[k]).id != id by {
            assert(d[k] == s[k]);
        }
        lemma_without_id_id_free(d, id);
        assert(s.last().id != id);
        assert(without_id(s, id) == d.push(s.last()));
        assert(d.push(s.last()) =~= s);
    }
}

spec fn is_first_match_at(s: Seq<ItemView>, id: u32, k: int) -> bool {
    &&& 0 <= k < s.len()
    &&& s[k].id == id
    &&& first_with_id(s, id) == Option::Some(s[k])
    &&& forall|j: int| 0 <= j < k ==> (#[trigger] s[j]).id != id
}

proof fn lemma_first_with_id_index(s: Seq<ItemView>, id: u32)
    requires
        first_with_id(s, id) is Some,
    ensures
        exists|k: int| #[trigger] is_first_match_at(s, id, k),
    decreases s.len(),
{
    if s[0].id == id {
        assert(is_first_match_at(s, id, 0));
    } else {
        let d = s.drop_first();
        lemma_first_with_id_index(d, id);
        let k0 = choose|k: int| is_first_match_at(d, id, k);
        assert(is_first_match_at(s, id, k0 + 1)) by {
            assert(s[k0 + 1] == d[k0]);
            assert forall|j: int| 0 <= j < k0 + 1 implies (#[trigger] s[j]).id != id by {
                if j > 0 {
                    assert(s[j] == d[j - 1]);
                }
            }
        }
    }
}

proof fn lemma_without_id_unique(s: Seq<ItemView>, id: u32, k: int)
    requires
        0 <= k < s.len(),
        s[k].id == id,
        forall|j: int| 0 <= j < s.len() && j != k ==> (#[trigger] s[j]).id != id,
    ensures
        without_id(s, id) == s.remove(k),
    decreases s.len(),
{
    reveal(Seq::filter);
    if k == s.len() - 1 {
        let d = s.drop_last();
        assert forall|j: int| 0 <= j < d.len() implies (#[trigger] d[j]).id != id by {
            assert(d[j] == s[j]);
        }
        lemma_without_id_id_free(d, id);
        assert(without_id(s, id) == d);
        assert(s.remove(k) =~= d);
    } else {
        let d = s.drop_last();
        assert(s.last() == s[s.len() - 1]);
        assert(s.last().id != id);
        assert(d[k] == s[k]);
        assert forall|j: int| 0 <= j < d.len() && j != k implies (#[trigger] d[j]).id != id by {
            assert(d[j] == s[j]);
        }
        lemma_without_id_unique(d, id, k);
        assert(without_id(s, id) == d.remove(k).push(s.last()));
        assert(s.remove(k) =~= d.remove(k).push(s.last()));
    }
}

/// Reopening an id right after completing it restores the earlier lists:
/// the completed list exactly, and the pending list up to order (the moved
/// item returns at the tail rather than at its old position) — provided the
/// id matched at most one pending item and no completed item beforehand.
pub proof fn lemma_reopen_inverts_complete(st: StateView, id: u32)
    requires
        forall|k: int| 0 <= k < st.completed.len() ==> (#[trigger] st.completed[k]).id != id,
        forall|i: int, j: int|
            0 <= i < st.pending.len() && 0 <= j < st.pending.len() && i != j && (
            #[trigger] st.pending[i]).id == id ==> (#[trigger] st.pending[j]).id != id,
    ensures
        reopen_item_spec(complete_item_spec(st, id), id).completed == st.completed,
        reopen_item_spec(complete_item_spec(st, id), id).pending.to_multiset()
            == st.pending.to_multiset(),
        reopen_item_spec(complete_item_spec(st, id), id).input_buffer == st.input_buffer,
{
    broadcast use vstd::seq_lib::group_to_multiset_ensures;
    broadcast use vstd::multiset::group_multiset_axioms;

    let p = st.pending;
    let c = st.completed;
    match first_with_id(p, id) {
        Option::None => {
            lemma_first_with_id_none(c, id);
        },
        Option::Some(it) => {
            lemma_first_with_id_index(p, id);
            let k = choose|k: int| is_first_match_at(p, id, k);
            assert(p[k] == it);
            assert forall|j: int| 0 <= j < p.len() && j != k implies (#[trigger] p[j]).id
                != id by {
                if j > k {
                    assert(p[k].id == id);
                }
            }
            lemma_without_id_unique(p, id, k);
            let st1 = complete_item_spec(st, id);
            assert(st1.pending == p.remove(k));
            assert(st1.completed == c.push(it));
            lemma_first_with_id_none(c, id);
            lemma_first_with_id_push(c, it, id);
            assert(first_with_id(c.push(it), id) == Option::Some(it));
            lemma_without_id_push(c, it, id);
            lemma_without_id_id_free(c, id);
            let st2 = reopen_item_spec(st1, id);
            assert(st2.completed == c);
            assert(st2.pending == p.remove(k).push(it));
            assert(p.remove(k).to_multiset() =~= p.to_multiset().remove(p[k]));
            assert(p.contains(p[k]));
            assert(p.to_multiset().count(p[k]) > 0);
            assert(st2.pending.to_multiset() =~= p.remove(k).to_multiset().insert(it));
            assert(p.to_multiset().remove(p[k]).insert(p[k]) =~= p.to_multiset());
        },
    }
}

fn is_space_char(c: char) -> (r: bool)
    ensures
        r == is_space(c),
{
    c == ' ' || c == '\t' || c == '\n' || c == '\r'
}

proof fn lemma_trim_front_at(s: Seq<char>, a: int)
    requires
        0 <= a <= s.len(),
        forall|k: int| 0 <= k < a ==> is_space(s[k]),
        a == s.len() || !is_space(s[a]),
    ensures
        trim_front(s) == s.subrange(a, s.len() as int),
    decreases a,
{
    if a == 0 {
        if s.len() > 0 && is_space(s[0]) {
            assert(false);
        }
        assert(s.subrange(0, s.len() as int) =~= s);
    } else {
        assert(is_space(s[0]));
        let d = s.drop_first();
        assert(forall|k: int| 0 <= k < a - 1 ==> is_space(d[k]));
        lemma_trim_front_at(d, a - 1);
        assert(d.subrange(a - 1, d.len() as int) =~= s.subrange(a, s.len() as int));
    }
}

proof fn lemma_trim_back_at(s: Seq<char>, b: int)
    requires
        0 <= b <= s.len(),
        forall|k: int| b <= k < s.len() ==> is_space(s[k]),
        b == 0 || !is_space(s[b - 1]),
    ensures
        trim_back(s) == s.subrange(0, b),
    decreases s.len() - b,
{
    if b == s.len() {
        if s.len() > 0 && is_space(s.last()) {
            assert(false);
        }
        assert(s.subrange(0, s.len() as int) =~= s);
    } else {
        assert(is_space(s.last()));
        let d = s.drop_last();
        assert(forall|k: int| b <= k < d.len() ==> is_space(d[k]));
        lemma_trim_back_at(d, b);
        assert(d.subrange(0, b) =~= s.subrange(0, b));
    }
}

/// The trimmed text of `s`, in a fresh string.
fn trim_str(s: &str) -> (r: String)
    ensures
        r@ == trimmed(s@),
{
    let n = s.unicode_len();
    let mut a: usize = 0;
    while a < n && is_space_char(s.get_char(a))
        invariant
            0 <= a <= n,
            n == s@.len(),
            forall|k: int| 0 <= k < a ==> is_space(s@[k]),
        decreases n - a,
    {
        a = a + 1;
    }
    let mut b: usize = n;
    while b > a && is_space_char(s.get_char(b - 1))
        invariant
            a <= b <= n,
            n == s@.len(),
            forall|k: int| b <= k < n ==> is_space(s@[k]),
        decreases b,
    {
        b = b - 1;
    }
    proof {
        lemma_trim_front_at(s@, a as int);
        let t = s@.subrange(a as int, n as int);
        if b == a {
            lemma_trim_back_at(t, 0);
        } else {
            assert(t[b - a - 1] == s@[b - 1]);
            assert(forall|k: int| b - a <= k < t.len() ==> is_space(t[k]));
            lemma_trim_back_at(t, b - a);
        }
        assert(t.subrange(0, b - a) =~= s@.subrange(a as int, b as int));
    }
    let sub = s.substring_char(a, b);
    String::from_str(sub)
}

pub(crate) proof fn lemma_items_view_push(s: Seq<Item>, x: Item)
    ensures
        items_view(s.push(x)) == items_view(s).push(x@),
{
    assert(items_view(s.push(x)) =~= items_view(s).push(x@));
}

proof fn lemma_without_id_push(s: Seq<ItemView>, x: ItemView, id: u32)
    ensures
        x.id != id ==> without_id(s.push(x), id) == without_id(s, id).push(x),
        x.id == id ==> without_id(s.push(x), id) == without_id(s, id),
{
    reveal(Seq::filter);
    let pred = |it: ItemView| it.id != id;
    assert(s.push(x).drop_last() =~= s);
    assert(s.push(x).last() == x);
    if x.id != id {
        assert(without_id(s.push(x), id) =~= without_id(s, id).push(x));
    }
}

proof fn lemma_first_with_id_push(s: Seq<ItemView>, x: ItemView, id: u32)
    ensures
        first_with_id(s.push(x), id) == (if first_with_id(s, id) is Some {
            first_with_id(s, id)
        } else if x.id == id {
            Option::Some(x)
        } else {
            Option::<ItemView>::None
        }),
    decreases s.len(),
{
    if s.len() == 0 {
        assert(s.push(x)[0] == x);
        assert(s.push(x).drop_first() =~= Seq::<ItemView>::empty());
    } else {
        assert(s.push(x)[0] == s[0]);
        if s[0].id != id {
            assert(s.push(x).drop_first() =~= s.drop_first().push(x));
            lemma_first_with_id_push(s.drop_first(), x, id);
        }
    }
}

/// One pass over a list: the items whose id differs from `id`, in order, and
/// the first item whose id matches, if any.
fn split_out(v: &Vec<Item>, id: u32) -> (r: (Vec<Item>, Option<Item>))
    ensures
        items_view(r.0@) == without_id(items_view(v@), id),
        opt_item_view(r.1) == first_with_id(items_view(v@), id),
{
    let ghost all = items_view(v@);
    let mut kept: Vec<Item> = Vec::new();
    let mut found: Option<Item> = None;
    let n = v.len();
    let mut i: usize = 0;
    proof {
        assert(items_view(v@.take(0)) =~= Seq::<ItemView>::empty());
        reveal(Seq::filter);
    }
    while i < n
        invariant
            0 <= i <= n,
            n == v@.len(),
            all == items_view(v@),
            items_view(kept@) == without_id(all.take(i as int), id),
            opt_item_view(found) == first_with_id(all.take(i as int), id),
        decreases n - i,
    {
        proof {
            assert(all.take(i + 1) =~= all.take(i as int).push(all[i as int]));
            lemma_without_id_push(all.take(i as int), all[i as int], id);
            lemma_first_with_id_push(all.take(i as int), all[i as int], id);
        }
        let it = &v[i];
        assert(it@ == all[i as int]);
        if it.id == id {
            if found.is_none() {
                found = Some(it.clone());
            }
        } else {
            let ghost kept_old = kept@;
            kept.push(it.clone());
            proof {
                lemma_items_view_push(kept_old, kept@.last());
                assert(kept@.drop_last() =~= kept_old);
            }
        }
        i = i + 1;
    }
    proof {
        assert(all.take(n as int) =~= all);
    }
    (kept, found)
}

impl AppState {
    /// A state with empty lists and an empty entry buffer.
    pub fn new() -> (st: AppState)
        ensures
            st@.input_buffer == Seq::<char>::empty(),
            st@.pending == Seq::<ItemView>::empty(),
            st@.completed == Seq::<ItemView>::empty(),
    {
        let st = AppState { input_buffer: String::new(), pending: Vec::new(), completed: Vec::new() };
        proof {
            assert(st@.pending =~= Seq::<ItemView>::empty());
            assert(st@.completed =~= Seq::<ItemView>::empty());
        }
        st
    }

    /// A state holding the given lists, with an empty entry buffer; this is
    /// how a loaded document becomes the startup state.
    pub fn from_lists(pending: Vec<Item>, completed: Vec<Item>) -> (st: AppState)
        ensures
            st@.input_buffer == Seq::<char>::empty(),
            st@.pending == items_view(pending@),
            st@.completed == items_view(completed@),
    {
        AppState { input_buffer: String::new(), pending, completed }
    }

    /// Replace the entry buffer; the lists are untouched.
    pub fn set_input_buffer(&mut self, text: String)
        ensures
            final(self)@ == set_input_buffer_spec(old(self)@, text@),
    {
        self.input_buffer = text;
    }

    /// Append an item holding the trimmed entry buffer, with the current
    /// pending-list length as its id, then clear the buffer; with an empty or
    /// all-space buffer, change nothing.
    pub fn add_item(&mut self)
        requires
            old(self)@.pending.len() < u32::MAX,
        ensures
            final(self)@ == add_item_spec(old(self)@),
    {
        let value = trim_str(self.input_buffer.as_str());
        if value.as_str().unicode_len() == 0 {
            proof {
                assert(trimmed(old(self)@.input_buffer).len() == 0);
            }
            return ;
        }
        let id = self.pending.len() as u32;
        let ghost pending_old = self.pending@;
        self.pending.push(Item { value, id });
        self.input_buffer = String::new();
        proof {
            lemma_items_view_push(pending_old, self.pending@.last());
            assert(self.pending@.drop_last() =~= pending_old);
        }
    }

    /// Delete every pending item whose id is `id`; order of the rest is kept.
    pub fn remove_from_pending(&mut self, id: u32)
        ensures
            final(self)@ == remove_from_pending_spec(old(self)@, id),
    {
        let (kept, _found) = split_out(&self.pending, id);
        self.pending = kept;
    }

    /// Delete every completed item whose id is `id`; order of the rest is kept.
    pub fn remove_from_completed(&mut self, id: u32)
        ensures
            final(self)@ == remove_from_completed_spec(old(self)@, id),
    {
        let (kept, _found) = split_out(&self.completed, id);
        self.completed = kept;
    }

    /// Move the pending item(s) with id `id`: all of them leave the pending
    /// list and the first one is appended to the completed list's tail.
    pub fn complete_item(&mut self, id: u32)
        ensures
            final(self)@ == complete_item_spec(old(self)@, id),
    {
        let (kept, found) = split_out(&self.pending, id);
        match found {
            None => {},
            Some(it) => {
                let ghost completed_old = self.completed@;
                self.pending = kept;
                self.completed.push(it);
                proof {
                    lemma_items_view_push(completed_old, self.completed@.last());
                    assert(self.completed@.drop_last() =~= completed_old);
                }
            },
        }
    }

    /// Move the completed item(s) with id `id`: all of them leave the
    /// completed list and the first one is appended to the pending list's tail.
    pub fn reopen_item(&mut self, id: u32)
        ensures
            final(self)@ == reopen_item_spec(old(self)@, id),
    {
        let (kept, found) = split_out(&self.completed, id);
        match found {
            None => {},
            Some(it) => {
                let ghost pending_old = self.pending@;
                self.completed = kept;
                self.pending.push(it);
                proof {
                    lemma_items_view_push(pending_old, self.pending@.last());
                    assert(self.pending@.drop_last() =~= pending_old);
                }
            },
        }
    }
}

} // verus!
