use vstd::prelude::*;

use crate::path_stats::SortOrder;
use crate::path_stats::StatsEntryView;
use crate::path_stats::StatsTable;
use crate::path_stats::sort_paths;
use crate::path_stats::spec_sort_ids;
use crate::path_stats::stats_for;
use crate::path_stats::spec_why_depends;
use crate::path_stats::why_depends;
use crate::store_path::GraphView;
use crate::store_path::dash_pos;
use crate::store_path::NodeView;
use crate::store_path::StorePathGraph;
use crate::store_path::clone_string_vec;
use crate::store_path::resolved_refs;
use crate::util::lemma_filter_push;
use crate::util::str_eq;

verus! {

/// Which of the three item panes has focus.
#[derive(Debug, Clone, Copy, PartialEq, Eq, Structural)]
pub enum Pane {
    Previous,
    Current,
    Next,
}

/// One input event, as the terminal front end translates it.
#[derive(Debug, Clone, Copy, PartialEq, Eq, Structural)]
pub enum KeyInput {
    Up,
    Down,
    Left,
    Right,
    Enter,
    Esc,
    Backspace,
    PageUp,
    PageDown,
    Char(char),
}

/// The overlay shown on top of the panes: the why-depends result, with its
/// own cursor and horizontal scroll offset.
#[derive(Debug)]
pub enum Modal {
    WhyDepends {
        paths: Vec<Vec<String>>,
        formatted_lines: Vec<String>,
        max_line_width: usize,
        selected: usize,
        horizontal_scroll: usize,
    },
}

/// The step a horizontal scroll moves by.
pub const HORIZONTAL_SCROLL_STEP: usize = 5;

/// The number of lines a page movement skips in the overlay.
pub const MODAL_PAGE_SIZE: usize = 10;

/// The scroll margin kept at the right edge of the longest overlay line.
pub const HORIZONTAL_SCROLL_MARGIN: usize = 20;

/// The interactive navigation state: the three visible panes with their
/// cursors, the focused identifier, the history stack of snapshots for
/// back-navigation, the sort order, the search mode, and the overlay.
pub struct App {
    pub graph: StorePathGraph,
    pub stats: StatsTable,
    pub sort_order: SortOrder,
    pub active_pane: Pane,
    pub show_help: bool,
    pub searching: bool,
    pub search_query: String,
    pub previous_selected: Option<usize>,
    pub current_selected: Option<usize>,
    pub next_selected: Option<usize>,
    pub previous_items: Vec<String>,
    pub current_items: Vec<String>,
    pub next_items: Vec<String>,
    pub current_path: Option<String>,
    pub navigation_history: Vec<(Vec<String>, Option<usize>)>,
    pub modal: Option<Modal>,
}

/// What `str::to_lowercase` returns: a function of the characters alone.
pub uninterp spec fn lower_of(s: Seq<char>) -> Seq<char>;

/// Relies on str::to_lowercase: the result depends on the characters alone.
#[verifier::external_body]
fn lowercase(s: &str) -> (r: String)
    ensures
        r@ == lower_of(s@),
{
    s.to_lowercase()
}

/// Relies on String::push: appends exactly the given character.
#[verifier::external_body]
fn push_char(s: &mut String, c: char)
    ensures
        final(s)@ == old(s)@.push(c),
{
    s.push(c);
}

/// `needle` occurs contiguously inside `hay`.
pub open spec fn is_substring(hay: Seq<char>, needle: Seq<char>) -> bool {
    exists|o: int|
        0 <= o <= hay.len() - needle.len() && #[trigger] hay.subrange(o, o + needle.len() as int)
            == needle
}

/// Decides whether `needle` occurs contiguously inside `hay`.
pub fn contains_chars(hay: &str, needle: &str) -> (r: bool)
    ensures
        r == is_substring(hay@, needle@),
{
    let nh = hay.unicode_len();
    let nn = needle.unicode_len();
    if nn > nh {
        return false;
    }
    if nn == 0 {
        proof {
            assert(hay@.subrange(0, 0 + needle@.len() as int) =~= needle@);
        }
        return true;
    }
    let mut o: usize = 0;
    while o <= nh - nn
        invariant
            nh == hay@.len(),
            nn == needle@.len(),
            nn <= nh,
            0 <= o <= nh - nn + 1,
            nn >= 1,
            forall|w: int| 0 <= w < o ==> #[trigger] hay@.subrange(w, w + nn as int) != needle@,
        decreases nh - nn + 1 - o,
    {
        let mut j: usize = 0;
        let mut matched = true;
        while j < nn
            invariant
                nh == hay@.len(),
                nn == needle@.len(),
                0 <= o <= nh - nn,
                0 <= j <= nn,
                matched ==> forall|w: int| 0 <= w < j ==> hay@[o + w] == needle@[w],
                !matched ==> hay@.subrange(o as int, o + nn as int) != needle@,
            decreases nn - j,
        {
            if hay.get_char(o + j) != needle.get_char(j) {
                proof {
                    let sub = hay@.subrange(o as int, o + nn as int);
                    if sub == needle@ {
                        assert(sub[j as int] == hay@[o + j]);
                    }
                }
                matched = false;
                j = nn;
            } else {
                j += 1;
            }
        }
        if matched {
            proof {
                assert(hay@.subrange(o as int, o + nn as int) =~= needle@);
            }
            return true;
        }
        o += 1;
    }
    proof {
        if is_substring(hay@, needle@) {
            let w = choose|w: int|
                0 <= w <= hay@.len() - needle@.len() && #[trigger] hay@.subrange(
                    w,
                    w + needle@.len() as int,
                ) == needle@;
            assert(false);
        }
    }
    false
}

/// The first position of `x` in `l`, or `-1` when it does not occur.
pub open spec fn idx_of(l: Seq<Seq<char>>, x: Seq<char>) -> int
    decreases l.len(),
{
    if l.len() == 0 {
        -1
    } else if l[0] == x {
        0
    } else {
        let r = idx_of(l.drop_first(), x);
        if r < 0 {
            -1
        } else {
            r + 1
        }
    }
}

pub proof fn lemma_idx_of(l: Seq<Seq<char>>, x: Seq<char>)
    ensures
        (idx_of(l, x) >= 0) <==> l.contains(x),
        idx_of(l, x) >= 0 ==> idx_of(l, x) < l.len() && l[idx_of(l, x)] == x,
        idx_of(l, x) >= 0 ==> (forall|j: int| 0 <= j < idx_of(l, x) ==> l[j] != x),
    decreases l.len(),
{
    if l.len() == 0 {
    } else if l[0] == x {
    } else {
        lemma_idx_of(l.drop_first(), x);
        assert(forall|j: int| 0 <= j < l.drop_first().len() ==> l.drop_first()[j] == l[j + 1]);
        if l.contains(x) {
            let i = choose|i: int| 0 <= i < l.len() && l[i] == x;
            assert(i != 0);
            assert(l.drop_first()[i - 1] == x);
            assert(l.drop_first().contains(x));
        }
        if idx_of(l, x) >= 0 {
            assert forall|j: int| 0 <= j < idx_of(l, x) implies l[j] != x by {
                if j > 0 {
                    assert(l.drop_first()[j - 1] != x);
                }
            }
        }
    }
}

/// The first position of the string `x` in `v`, if any.
fn find_id(v: &Vec<String>, x: &str) -> (r: Option<usize>)
    ensures
        match r {
            Some(i) => 0 <= i < v.deep_view().len() && idx_of(v.deep_view(), x@) == i,
            None => idx_of(v.deep_view(), x@) < 0,
        },
{
    let mut i: usize = 0;
    while i < v.len()
        invariant
            0 <= i <= v@.len(),
            v.deep_view().len() == v@.len(),
            forall|j: int| 0 <= j < i ==> v.deep_view()[j] != x@,
        decreases v@.len() - i,
    {
        proof {
            assert(v.deep_view()[i as int] == v@[i as int]@);
        }
        if str_eq(v[i].as_str(), x) {
            proof {
                lemma_idx_of(v.deep_view(), x@);
            }
            return Some(i);
        }
        i += 1;
    }
    proof {
        lemma_idx_of(v.deep_view(), x@);
        if idx_of(v.deep_view(), x@) >= 0 {
            assert(v.deep_view()[idx_of(v.deep_view(), x@)] == x@);
        }
    }
    None
}

/// The identifiers of the resolved direct dependencies of `id`.
pub open spec fn ref_ids(g: GraphView, id: Seq<char>) -> Seq<Seq<char>> {
    resolved_refs(g, id).map_values(|n: NodeView| n.id)
}

/// The recorded direct referrers of `id`, or nothing when no record exists.
pub open spec fn parents_of(t: Seq<StatsEntryView>, id: Seq<char>) -> Seq<Seq<char>> {
    match stats_for(t, id) {
        Some(s) => s.immediate_parents,
        None => Seq::empty(),
    }
}

/// The identifier the panes focus on: the selected item of the middle pane,
/// position zero when nothing is selected yet.
pub open spec fn focused_id(items: Seq<Seq<char>>, sel: Option<usize>) -> Option<Seq<char>> {
    let idx = match sel {
        Some(i) => i as int,
        None => 0,
    };
    if 0 <= idx < items.len() {
        Some(items[idx])
    } else {
        None
    }
}

/// The engine configuration is untouched: graph, statistics, sort order,
/// help flag, search state and overlay all agree.
pub open spec fn same_engine(a: App, b: App) -> bool {
    &&& b.graph == a.graph
    &&& b.stats == a.stats
    &&& b.sort_order == a.sort_order
    &&& b.show_help == a.show_help
    &&& b.searching == a.searching
    &&& b.search_query == a.search_query
    &&& b.modal == a.modal
}

/// The side panes of `post` show the neighbourhood of the focus of `items`
/// under `sel`: referrers to the left, dependencies to the right, both
/// sorted, both cursors reset, focus back on the middle pane. Without a
/// focus nothing of the pane state changes.
pub open spec fn panes_refreshed(
    pre: App,
    post: App,
    items: Seq<Seq<char>>,
    sel: Option<usize>,
) -> bool {
    match focused_id(items, sel) {
        Some(id) => {
            &&& post.current_path is Some
            &&& post.current_path->0@ == id
            &&& post.previous_items.deep_view() == spec_sort_ids(
                pre.sort_order,
                pre.stats@,
                parents_of(pre.stats@, id),
            )
            &&& post.next_items.deep_view() == spec_sort_ids(
                pre.sort_order,
                pre.stats@,
                ref_ids(pre.graph@, id),
            )
            &&& post.previous_selected == (if post.previous_items@.len() > 0 {
                Option::Some(0usize)
            } else {
                Option::<usize>::None
            })
            &&& post.next_selected == (if post.next_items@.len() > 0 {
                Option::Some(0usize)
            } else {
                Option::<usize>::None
            })
            &&& post.active_pane == Pane::Current
        },
        None => {
            &&& post.current_path == pre.current_path
            &&& post.previous_items == pre.previous_items
            &&& post.next_items == pre.next_items
            &&& post.previous_selected == pre.previous_selected
            &&& post.next_selected == pre.next_selected
            &&& post.active_pane == pre.active_pane
        },
    }
}

impl App {
    /// Recomputes the side panes around the selected item of the middle
    /// pane; the middle pane, the history and the configuration stay as they
    /// are.
    fn update_panes(&mut self)
        ensures
            same_engine(*old(self), *final(self)),
            final(self).current_items == old(self).current_items,
            final(self).current_selected == old(self).current_selected,
            final(self).navigation_history == old(self).navigation_history,
            panes_refreshed(
                *old(self),
                *final(self),
                old(self).current_items.deep_view(),
                old(self).current_selected,
            ),
    {
        let idx: usize = match self.current_selected {
            Some(i) => i,
            None => 0,
        };
        if idx < self.current_items.len() {
            proof {
                assert(self.current_items.deep_view()[idx as int]
                    == self.current_items@[idx as int]@);
            }
            let path = self.current_items[idx].clone();
            let ghost fid = path@;
            // Referrers pane.
            let mut prev: Vec<String> = match self.stats.get(path.as_str()) {
                Some(s) => clone_string_vec(&s.immediate_parents),
                None => Vec::new(),
            };
            proof {
                assert(prev.deep_view() =~= parents_of(self.stats@, fid));
            }
            sort_paths(&mut prev, &self.stats, self.sort_order);
            self.previous_items = prev;
            // Dependencies pane.
            let refs = self.graph.get_references(path.as_str());
            let mut next: Vec<String> = Vec::new();
            let mut k: usize = 0;
            proof {
                assert(next.deep_view() =~= ref_ids(self.graph@, fid).take(0));
            }
            while k < refs.len()
                invariant
                    0 <= k <= refs@.len(),
                    refs@.map_values(|p: &crate::store_path::StorePath| p@) == resolved_refs(
                        self.graph@,
                        fid,
                    ),
                    next.deep_view() =~= ref_ids(self.graph@, fid).take(k as int),
                decreases refs@.len() - k,
            {
                let ghost nd = next.deep_view();
                next.push(refs[k].path.clone());
                proof {
                    assert(refs@[k as int]@ == resolved_refs(self.graph@, fid)[k as int]);
                    assert(next.deep_view() =~= nd.push(ref_ids(self.graph@, fid)[k as int]));
                    assert(next.deep_view() =~= ref_ids(self.graph@, fid).take(k as int + 1));
                }
                k += 1;
            }
            proof {
                assert(ref_ids(self.graph@, fid).take(ref_ids(self.graph@, fid).len() as int)
                    =~= ref_ids(self.graph@, fid));
            }
            sort_paths(&mut next, &self.stats, self.sort_order);
            self.next_items = next;
            self.current_path = Some(path);
            self.previous_selected = if self.previous_items.len() > 0 {
                Some(0)
            } else {
                None
            };
            self.next_selected = if self.next_items.len() > 0 {
                Some(0)
            } else {
                None
            };
            self.active_pane = Pane::Current;
        }
    }
}

/// The selection after a downward step: one past the current position,
/// clamped to the last item; the first item when nothing was selected.
pub open spec fn down_index(sel: Option<usize>, len: int) -> int {
    match sel {
        Some(i) => if (i as int) < len - 1 {
            i as int + 1
        } else {
            len - 1
        },
        None => 0,
    }
}

/// The middle pane and the history after a rightward step: with a non-empty
/// dependencies pane the middle pane is snapshotted onto the history and the
/// dependencies become the middle pane; otherwise nothing moves.
pub open spec fn nav_move_right(
    items: Seq<Seq<char>>,
    sel: Option<usize>,
    next: Seq<Seq<char>>,
    hist: Seq<(Seq<Seq<char>>, Option<usize>)>,
) -> (Seq<Seq<char>>, Option<usize>, Seq<(Seq<Seq<char>>, Option<usize>)>) {
    if next.len() == 0 {
        (items, sel, hist)
    } else {
        (next, Some(0usize), hist.push((items, sel)))
    }
}

/// The middle pane and the history after a leftward step: the latest history
/// snapshot is restored and removed; with an empty history nothing moves.
pub open spec fn nav_move_left(
    items: Seq<Seq<char>>,
    sel: Option<usize>,
    hist: Seq<(Seq<Seq<char>>, Option<usize>)>,
) -> (Seq<Seq<char>>, Option<usize>, Seq<(Seq<Seq<char>>, Option<usize>)>) {
    if hist.len() == 0 {
        (items, sel, hist)
    } else {
        (hist.last().0, hist.last().1, hist.drop_last())
    }
}

/// Law: a rightward step into a non-empty dependencies pane followed by a
/// leftward step restores the middle pane's contents and selection exactly,
/// and leaves the history as it was.
pub proof fn lemma_right_left_round_trip(
    items: Seq<Seq<char>>,
    sel: Option<usize>,
    next: Seq<Seq<char>>,
    hist: Seq<(Seq<Seq<char>>, Option<usize>)>,
)
    requires
        next.len() > 0,
    ensures
        ({
            let (i1, s1, h1) = nav_move_right(items, sel, next, hist);
            let (i2, s2, h2) = nav_move_left(i1, s1, h1);
            i2 == items && s2 == sel && h2 == hist
        }),
{
    let pushed = hist.push((items, sel));
    assert(pushed.last() == (items, sel));
    assert(pushed.drop_last() =~= hist);
}

/// The graph and the statistics are untouched.
pub open spec fn same_data(a: App, b: App) -> bool {
    b.graph == a.graph && b.stats == a.stats
}

/// All pane state is untouched: the three item lists with their cursors, the
/// focused identifier, the active pane and the history.
pub open spec fn same_panes(a: App, b: App) -> bool {
    &&& b.current_items == a.current_items
    &&& b.current_selected == a.current_selected
    &&& b.previous_items == a.previous_items
    &&& b.previous_selected == a.previous_selected
    &&& b.next_items == a.next_items
    &&& b.next_selected == a.next_selected
    &&& b.current_path == a.current_path
    &&& b.active_pane == a.active_pane
    &&& b.navigation_history == a.navigation_history
}

/// What a downward step leaves behind.
pub open spec fn down_post(pre: App, post: App) -> bool {
    &&& same_engine(pre, post)
    &&& post.navigation_history == pre.navigation_history
    &&& post.current_items == pre.current_items
    &&& if pre.current_items@.len() == 0 {
        post == pre
    } else {
        &&& post.current_selected is Some
        &&& post.current_selected->0 as int == down_index(
            pre.current_selected,
            pre.current_items@.len() as int,
        )
        &&& panes_refreshed(pre, post, pre.current_items.deep_view(), post.current_selected)
    }
}

/// What an upward step leaves behind.
pub open spec fn up_post(pre: App, post: App) -> bool {
    &&& same_engine(pre, post)
    &&& post.navigation_history == pre.navigation_history
    &&& post.current_items == pre.current_items
    &&& match pre.current_selected {
        Some(i) => if i > 0 {
            &&& post.current_selected == Some((i - 1) as usize)
            &&& panes_refreshed(pre, post, pre.current_items.deep_view(), post.current_selected)
        } else {
            post == pre
        },
        None => post == pre,
    }
}

/// What a leftward step leaves behind: the core transition plus a pane
/// refresh around the restored selection.
pub open spec fn left_post(pre: App, post: App) -> bool {
    &&& same_engine(pre, post)
    &&& ({
        let (i1, s1, h1) = nav_move_left(
            pre.current_items.deep_view(),
            pre.current_selected,
            pre.navigation_history.deep_view(),
        );
        &&& post.current_items.deep_view() == i1
        &&& post.current_selected == s1
        &&& post.navigation_history.deep_view() == h1
    })
    &&& if pre.navigation_history@.len() == 0 {
        post == pre
    } else {
        panes_refreshed(pre, post, post.current_items.deep_view(), post.current_selected)
    }
}

/// What a rightward step leaves behind: the core transition plus a pane
/// refresh around the first item of the new middle pane.
pub open spec fn right_post(pre: App, post: App) -> bool {
    &&& same_engine(pre, post)
    &&& ({
        let (i1, s1, h1) = nav_move_right(
            pre.current_items.deep_view(),
            pre.current_selected,
            pre.next_items.deep_view(),
            pre.navigation_history.deep_view(),
        );
        &&& post.current_items.deep_view() == i1
        &&& post.current_selected == s1
        &&& post.navigation_history.deep_view() == h1
    })
    &&& if pre.next_items@.len() == 0 {
        post == pre
    } else {
        panes_refreshed(pre, post, pre.next_items.deep_view(), Some(0usize))
    }
}

/// The selection a re-sorted pane keeps: the previously selected item is
/// followed to its new position when it can be found; an out-of-range cursor
/// stays; an empty cursor stays empty.
pub open spec fn reselect_ok(
    sorted: Seq<Seq<char>>,
    old_items: Seq<Seq<char>>,
    old_sel: Option<usize>,
    new_sel: Option<usize>,
) -> bool {
    match old_sel {
        Some(i) => if (i as int) < old_items.len() {
            let p = idx_of(sorted, old_items[i as int]);
            if p >= 0 {
                new_sel == Some(p as usize)
            } else {
                new_sel is None
            }
        } else {
            new_sel == old_sel
        },
        None => new_sel is None,
    }
}

/// What re-sorting the three panes under `order` leaves behind.
pub open spec fn resort_post(pre: App, post: App, order: SortOrder) -> bool {
    &&& same_data(pre, post)
    &&& post.show_help == pre.show_help
    &&& post.searching == pre.searching
    &&& post.search_query == pre.search_query
    &&& post.modal == pre.modal
    &&& post.sort_order == pre.sort_order
    &&& post.navigation_history == pre.navigation_history
    &&& post.current_path == pre.current_path
    &&& post.active_pane == pre.active_pane
    &&& post.current_items.deep_view() == spec_sort_ids(
        order,
        pre.stats@,
        pre.current_items.deep_view(),
    )
    &&& post.previous_items.deep_view() == spec_sort_ids(
        order,
        pre.stats@,
        pre.previous_items.deep_view(),
    )
    &&& post.next_items.deep_view() == spec_sort_ids(
        order,
        pre.stats@,
        pre.next_items.deep_view(),
    )
    &&& reselect_ok(
        post.current_items.deep_view(),
        pre.current_items.deep_view(),
        pre.current_selected,
        post.current_selected,
    )
    &&& reselect_ok(
        post.previous_items.deep_view(),
        pre.previous_items.deep_view(),
        pre.previous_selected,
        post.previous_selected,
    )
    &&& reselect_ok(
        post.next_items.deep_view(),
        pre.next_items.deep_view(),
        pre.next_selected,
        post.next_selected,
    )
}

/// The mathematical content of the navigation state: the three panes with
/// their cursors, the focus, the active pane and the history.
pub ghost struct NavView {
    pub items: Seq<Seq<char>>,
    pub sel: Option<usize>,
    pub prev_items: Seq<Seq<char>>,
    pub prev_sel: Option<usize>,
    pub next_items: Seq<Seq<char>>,
    pub next_sel: Option<usize>,
    pub focus: Option<Seq<char>>,
    pub active: Pane,
    pub hist: Seq<(Seq<Seq<char>>, Option<usize>)>,
}

pub open spec fn nav_view(a: App) -> NavView {
    NavView {
        items: a.current_items.deep_view(),
        sel: a.current_selected,
        prev_items: a.previous_items.deep_view(),
        prev_sel: a.previous_selected,
        next_items: a.next_items.deep_view(),
        next_sel: a.next_selected,
        focus: match a.current_path {
            Some(p) => Some(p@),
            None => None,
        },
        active: a.active_pane,
        hist: a.navigation_history.deep_view(),
    }
}

/// The focus-refresh rule as a transition: the side panes are recomputed
/// around the focused identifier of the middle pane; without a focus the
/// state is left alone.
pub open spec fn refresh_step(
    g: GraphView,
    t: Seq<StatsEntryView>,
    order: SortOrder,
    s: NavView,
) -> NavView {
    match focused_id(s.items, s.sel) {
        Some(id) => {
            let prev = spec_sort_ids(order, t, parents_of(t, id));
            let next = spec_sort_ids(order, t, ref_ids(g, id));
            NavView {
                prev_items: prev,
                prev_sel: if prev.len() > 0 {
                    Option::Some(0usize)
                } else {
                    Option::<usize>::None
                },
                next_items: next,
                next_sel: if next.len() > 0 {
                    Option::Some(0usize)
                } else {
                    Option::<usize>::None
                },
                focus: Some(id),
                active: Pane::Current,
                ..s
            }
        },
        None => s,
    }
}

/// The rightward step as a transition: with a non-empty dependencies pane,
/// the middle pane is snapshotted onto the history, the dependencies become
/// the middle pane with the first item selected, and the panes refresh.
pub open spec fn right_step(
    g: GraphView,
    t: Seq<StatsEntryView>,
    order: SortOrder,
    s: NavView,
) -> NavView {
    if s.next_items.len() == 0 {
        s
    } else {
        refresh_step(
            g,
            t,
            order,
            NavView {
                items: s.next_items,
                sel: Some(0usize),
                hist: s.hist.push((s.items, s.sel)),
                ..s
            },
        )
    }
}

/// The replay of a why-depends chain from its `i`-th link on: locate the
/// link in the middle pane; when found, select it, refresh the panes, and
/// descend one level unless it is the last link; a link that cannot be
/// located is skipped.
pub open spec fn replay_from(
    g: GraphView,
    t: Seq<StatsEntryView>,
    order: SortOrder,
    s: NavView,
    chain: Seq<Seq<char>>,
    i: int,
) -> NavView
    decreases chain.len() - i,
{
    if i < 0 || i >= chain.len() {
        s
    } else {
        let p = idx_of(s.items, chain[i]);
        let s1 = if p >= 0 {
            let s0 = refresh_step(g, t, order, NavView { sel: Some(p as usize), ..s });
            if i + 1 < chain.len() {
                right_step(g, t, order, s0)
            } else {
                s0
            }
        } else {
            s
        };
        replay_from(g, t, order, s1, chain, i + 1)
    }
}

/// The whole replay: the history is cleared, the middle pane is reset to
/// the sorted graph roots, then the chain is walked link by link.
pub open spec fn spec_replay(
    g: GraphView,
    t: Seq<StatsEntryView>,
    order: SortOrder,
    s: NavView,
    chain: Seq<Seq<char>>,
) -> NavView {
    replay_from(
        g,
        t,
        order,
        NavView { items: spec_sort_ids(order, t, g.roots), hist: Seq::empty(), ..s },
        chain,
        0,
    )
}

/// A pane refresh around the middle pane's own contents and cursor realizes
/// the `refresh_step` transition.
proof fn lemma_refresh_matches(g: GraphView, t: Seq<StatsEntryView>, order: SortOrder, pre: App, post: App)
    requires
        pre.graph@ == g,
        pre.stats@ == t,
        pre.sort_order == order,
        panes_refreshed(pre, post, pre.current_items.deep_view(), pre.current_selected),
        post.current_items == pre.current_items,
        post.current_selected == pre.current_selected,
        post.navigation_history == pre.navigation_history,
    ensures
        nav_view(post) == refresh_step(g, t, order, nav_view(pre)),
{
    match focused_id(pre.current_items.deep_view(), pre.current_selected) {
        Some(id) => {
            assert(post.previous_items.deep_view().len() == post.previous_items@.len());
            assert(post.next_items.deep_view().len() == post.next_items@.len());
            assert(nav_view(post).focus == Some(id));
            assert(nav_view(post) == refresh_step(g, t, order, nav_view(pre)));
        },
        None => {
            assert(nav_view(post) == nav_view(pre));
        },
    }
}

/// A rightward move realizes the `right_step` transition.
proof fn lemma_right_matches(g: GraphView, t: Seq<StatsEntryView>, order: SortOrder, pre: App, post: App)
    requires
        pre.graph@ == g,
        pre.stats@ == t,
        pre.sort_order == order,
        right_post(pre, post),
    ensures
        nav_view(post) == right_step(g, t, order, nav_view(pre)),
{
    if pre.next_items@.len() == 0 {
        assert(pre.next_items.deep_view().len() == 0);
        assert(nav_view(post) == nav_view(pre));
    } else {
        let inner = NavView {
            items: nav_view(pre).next_items,
            sel: Some(0usize),
            hist: nav_view(pre).hist.push((nav_view(pre).items, nav_view(pre).sel)),
            ..nav_view(pre)
        };
        assert(pre.next_items.deep_view().len() == pre.next_items@.len());
        assert(focused_id(inner.items, inner.sel) == Some(pre.next_items.deep_view()[0]));
        assert(post.previous_items.deep_view().len() == post.previous_items@.len());
        assert(post.next_items.deep_view().len() == post.next_items@.len());
        assert(nav_view(post) == refresh_step(g, t, order, inner));
    }
}

/// The node labels whose lower-cased form contains the lower-cased query, as
/// identifiers in graph order.
pub open spec fn search_matches(g: GraphView, q: Seq<char>) -> Seq<Seq<char>> {
    g.nodes.filter(|n: NodeView| is_substring(lower_of(n.name), lower_of(q))).map_values(
        |n: NodeView| n.id,
    )
}

/// What committing a search leaves behind: with a non-empty query and at
/// least one label match, the middle pane shows the sorted matches with the
/// first selected; otherwise nothing changes.
pub open spec fn search_commit_post(pre: App, post: App) -> bool {
    &&& same_engine(pre, post)
    &&& post.navigation_history == pre.navigation_history
    &&& if pre.search_query@.len() == 0 || search_matches(pre.graph@, pre.search_query@).len()
        == 0 {
        post == pre
    } else {
        &&& post.current_items.deep_view() == spec_sort_ids(
            pre.sort_order,
            pre.stats@,
            search_matches(pre.graph@, pre.search_query@),
        )
        &&& post.current_selected == Some(0usize)
        &&& panes_refreshed(
            pre,
            post,
            spec_sort_ids(pre.sort_order, pre.stats@, search_matches(pre.graph@, pre.search_query@)),
            Some(0usize),
        )
    }
}

impl App {
    /// Moves the middle cursor one item down, clamped to the last item, and
    /// refreshes the side panes; with an empty middle pane nothing changes.
    fn move_down(&mut self)
        ensures
            down_post(*old(self), *final(self)),
    {
        if self.current_items.len() > 0 {
            let len = self.current_items.len();
            let i: usize = match self.current_selected {
                Some(i) => if i < len - 1 {
                    i + 1
                } else {
                    len - 1
                },
                None => 0,
            };
            self.current_selected = Some(i);
            self.update_panes();
        }
    }

    /// Moves the middle cursor one item up and refreshes the side panes;
    /// at the top, or with nothing selected, nothing changes.
    fn move_up(&mut self)
        ensures
            up_post(*old(self), *final(self)),
    {
        match self.current_selected {
            Some(i) => {
                if i > 0 {
                    self.current_selected = Some(i - 1);
                    self.update_panes();
                }
            },
            None => {},
        }
    }

    /// Restores the latest history snapshot into the middle pane and
    /// refreshes the side panes; with an empty history nothing changes.
    fn move_left(&mut self)
        ensures
            left_post(*old(self), *final(self)),
            old(self).navigation_history@.len() == 0 ==> *final(self) == *old(self),
    {
        let ghost hd = self.navigation_history.deep_view();
        if self.navigation_history.len() == 0 {
            return ;
        }
        match self.navigation_history.pop() {
            Some(entry) => {
                proof {
                    let k = hd.len() - 1;
                    assert(hd[k] == old(self).navigation_history@[k].deep_view());
                    assert(old(self).navigation_history@[k].deep_view() == (
                    old(self).navigation_history@[k].0.deep_view(),
                    old(self).navigation_history@[k].1.deep_view(),
                    ));
                    match old(self).navigation_history@[k].1 {
                        Some(u) => {
                            assert(old(self).navigation_history@[k].1.deep_view() == Some(u));
                        },
                        None => {},
                    }
                    assert(hd.last() == (entry.0.deep_view(), entry.1));
                    assert(self.navigation_history.deep_view() =~= hd.drop_last());
                }
                self.current_items = entry.0;
                self.current_selected = entry.1;
                let ghost mid = *self;
                self.update_panes();
                proof {
                    assert(panes_refreshed(
                        mid,
                        *self,
                        mid.current_items.deep_view(),
                        mid.current_selected,
                    ));
                    assert(panes_refreshed(
                        *old(self),
                        *self,
                        self.current_items.deep_view(),
                        self.current_selected,
                    )) by {
                        match focused_id(mid.current_items.deep_view(), mid.current_selected) {
                            Some(id) => {},
                            None => {},
                        }
                    }
                }
            },
            None => {},
        }
    }

    /// Snapshots the middle pane onto the history, makes the dependencies
    /// pane the middle pane with its first item selected, and refreshes the
    /// side panes; with an empty dependencies pane nothing changes.
    fn move_right(&mut self)
        ensures
            right_post(*old(self), *final(self)),
            old(self).next_items@.len() == 0 ==> *final(self) == *old(self),
    {
        if self.next_items.len() > 0 {
            let ghost hd = self.navigation_history.deep_view();
            let snapshot = clone_string_vec(&self.current_items);
            let sel = self.current_selected;
            proof {
                assert(snapshot.deep_view() =~= self.current_items.deep_view());
            }
            self.navigation_history.push((snapshot, sel));
            proof {
                assert(self.navigation_history.deep_view() =~= hd.push(
                    (old(self).current_items.deep_view(), old(self).current_selected),
                ));
            }
            let new_items = clone_string_vec(&self.next_items);
            proof {
                assert(new_items.deep_view() =~= self.next_items.deep_view());
            }
            self.current_items = new_items;
            self.current_selected = Some(0);
            self.update_panes();
        }
    }

    /// Refreshes the side panes around the selected item.
    fn select_item(&mut self)
        ensures
            same_engine(*old(self), *final(self)),
            final(self).current_items == old(self).current_items,
            final(self).current_selected == old(self).current_selected,
            final(self).navigation_history == old(self).navigation_history,
            panes_refreshed(
                *old(self),
                *final(self),
                old(self).current_items.deep_view(),
                old(self).current_selected,
            ),
    {
        self.update_panes();
    }

    /// Re-sorts one pane under the current order, following the selected
    /// item to its new position.
    fn resort_pane(items: &mut Vec<String>, sel: &mut Option<usize>, stats: &StatsTable, order: SortOrder)
        ensures
            final(items).deep_view() == spec_sort_ids(order, stats@, old(items).deep_view()),
            reselect_ok(
                final(items).deep_view(),
                old(items).deep_view(),
                *old(sel),
                *final(sel),
            ),
    {
        let chosen: Option<String> = match *sel {
            Some(i) => {
                if i < items.len() {
                    proof {
                        assert(items.deep_view()[i as int] == items@[i as int]@);
                    }
                    Some(items[i].clone())
                } else {
                    None
                }
            },
            None => None,
        };
        sort_paths(items, stats, order);
        match chosen {
            Some(item) => {
                match find_id(items, item.as_str()) {
                    Some(p) => {
                        *sel = Some(p);
                    },
                    None => {
                        *sel = None;
                    },
                }
            },
            None => {
                match *sel {
                    Some(_) => {},
                    None => {
                        *sel = None;
                    },
                }
            },
        }
    }

    /// Re-sorts all three panes in place under the current order, keeping
    /// each pane's selected item selected where it can be found again.
    fn resort_current_pane(&mut self)
        ensures
            resort_post(*old(self), *final(self), old(self).sort_order),
    {
        let order = self.sort_order;
        Self::resort_pane(&mut self.current_items, &mut self.current_selected, &self.stats, order);
        Self::resort_pane(
            &mut self.previous_items,
            &mut self.previous_selected,
            &self.stats,
            order,
        );
        Self::resort_pane(&mut self.next_items, &mut self.next_selected, &self.stats, order);
    }
}

/// The context against which marginal sizes are judged: the single parent
/// navigated from when the latest history snapshot has a selection, the whole
/// snapshot when it has none, and the graph roots when there is no history.
pub open spec fn parent_context_of(app: App) -> Seq<Seq<char>> {
    if app.navigation_history@.len() > 0 {
        let e = app.navigation_history@.last();
        match e.1 {
            Some(i) => if (i as int) < e.0@.len() {
                seq![e.0@[i as int]@]
            } else {
                e.0.deep_view()
            },
            None => e.0.deep_view(),
        }
    } else {
        app.graph@.roots
    }
}

/// The short display form of an identifier: everything after its first dash,
/// or nothing when it has no dash.
pub open spec fn name_after_dash(id: Seq<char>) -> Seq<char> {
    let d = dash_pos(id, 0);
    if d < id.len() {
        id.subrange(d + 1, id.len() as int)
    } else {
        Seq::empty()
    }
}

/// The separator drawn between the links of a formatted dependency chain.
pub open spec fn arrow_sep() -> Seq<char> {
    seq![' ', '\u{2192}', ' ']
}

/// One dependency chain as a display line: the short forms of its
/// identifiers joined by arrows.
pub open spec fn format_path_line(p: Seq<Seq<char>>) -> Seq<char>
    decreases p.len(),
{
    if p.len() == 0 {
        Seq::empty()
    } else if p.len() == 1 {
        name_after_dash(p[0])
    } else {
        name_after_dash(p[0]) + arrow_sep() + format_path_line(p.drop_first())
    }
}

/// All chains as display lines.
pub open spec fn format_lines(paths: Seq<Seq<Seq<char>>>) -> Seq<Seq<char>> {
    paths.map_values(|p: Seq<Seq<char>>| format_path_line(p))
}

/// The widest display line, in characters.
pub open spec fn max_width(lines: Seq<Seq<char>>) -> int
    decreases lines.len(),
{
    if lines.len() == 0 {
        0
    } else {
        let rest = max_width(lines.drop_last());
        if lines.last().len() as int > rest {
            lines.last().len() as int
        } else {
            rest
        }
    }
}

/// The short display form of one identifier.
fn display_tail(id: &str) -> (r: String)
    ensures
        r@ == name_after_dash(id@),
{
    let n = id.unicode_len();
    let mut d: usize = 0;
    while d < n && id.get_char(d) != '-'
        invariant
            n == id@.len(),
            0 <= d <= n,
            forall|j: int| 0 <= j < d ==> id@[j] != '-',
        decreases n - d,
    {
        d += 1;
    }
    proof {
        crate::store_path::lemma_dash_pos(id@, 0, d as int);
    }
    if d < n {
        id.substring_char(d + 1, n).to_owned()
    } else {
        String::new()
    }
}

/// The display line of the chain suffix starting at `k`.
fn format_line_from(p: &Vec<String>, k: usize) -> (r: String)
    requires
        k <= p@.len(),
    ensures
        r@ == format_path_line(p.deep_view().skip(k as int)),
    decreases p@.len() - k,
{
    let ghost q = p.deep_view().skip(k as int);
    if k == p.len() {
        proof {
            assert(q.len() == 0);
        }
        String::new()
    } else if k == p.len() - 1 {
        proof {
            assert(q.len() == 1);
            assert(q[0] == p.deep_view()[k as int]);
            assert(p.deep_view()[k as int] == p@[k as int]@);
        }
        display_tail(p[k].as_str())
    } else {
        let mut s = display_tail(p[k].as_str());
        s.append(" \u{2192} ");
        let rest = format_line_from(p, k + 1);
        s.append(rest.as_str());
        proof {
            reveal_strlit(" \u{2192} ");
            assert((" \u{2192} ")@ =~= arrow_sep());
            assert(q.len() >= 2);
            assert(q[0] == p.deep_view()[k as int]);
            assert(p.deep_view()[k as int] == p@[k as int]@);
            assert(q.drop_first() =~= p.deep_view().skip(k as int + 1));
        }
        s
    }
}

/// What opening the why-depends overlay leaves behind: everything but the
/// overlay stays; the overlay opens exactly when an identifier is focused
/// and the reachability search yields at least one chain for it, and then
/// holds exactly that search result with its display lines, the cursor on
/// the first chain and no horizontal scroll.
pub open spec fn why_post(pre: App, post: App) -> bool {
    &&& same_data(pre, post)
    &&& post.sort_order == pre.sort_order
    &&& post.show_help == pre.show_help
    &&& post.searching == pre.searching
    &&& post.search_query == pre.search_query
    &&& same_panes(pre, post)
    &&& match pre.current_path {
        None => post.modal == pre.modal,
        Some(focus) => {
            let result = spec_why_depends(pre.graph@, focus@);
            if result.len() == 0 {
                post.modal == pre.modal
            } else {
                &&& post.modal is Some
                &&& (post.modal->0 matches Modal::WhyDepends {
                    paths,
                    formatted_lines,
                    max_line_width,
                    selected,
                    horizontal_scroll,
                } && {
                    &&& paths.deep_view() == result
                    &&& formatted_lines.deep_view() == format_lines(result)
                    &&& max_line_width as int == max_width(format_lines(result))
                    &&& selected == 0
                    &&& horizontal_scroll == 0
                })
            }
        },
    }
}

impl App {
    /// Runs the reachability search on the focused identifier and opens the
    /// overlay on its paths; with no focus, or no path, nothing changes.
    fn show_why_depends(&mut self)
        ensures
            why_post(*old(self), *final(self)),
            old(self).modal is None && final(self).modal is None ==> *final(self) == *old(self),
    {
        let target: Option<String> = match &self.current_path {
            Some(p) => Some(p.clone()),
            None => None,
        };
        match target {
            Some(p) => {
                let paths = why_depends(&self.graph, p.as_str());
                if paths.len() > 0 {
                    let mut lines: Vec<String> = Vec::new();
                    let mut widest: usize = 0;
                    let mut k: usize = 0;
                    proof {
                        assert(lines.deep_view() =~= format_lines(paths.deep_view()).take(0));
                    }
                    while k < paths.len()
                        invariant
                            0 <= k <= paths@.len(),
                            paths.deep_view().len() == paths@.len(),
                            lines.deep_view() =~= format_lines(paths.deep_view()).take(k as int),
                            lines@.len() == k,
                            widest as int == max_width(lines.deep_view()),
                        decreases paths@.len() - k,
                    {
                        let ghost ld = lines.deep_view();
                        let line = format_line_from(&paths[k], 0);
                        let w = line.as_str().unicode_len();
                        proof {
                            assert(paths.deep_view()[k as int] == paths@[k as int].deep_view());
                            assert(paths@[k as int].deep_view().skip(0) =~= paths.deep_view()[k as int]);
                            assert(line@ == format_lines(paths.deep_view())[k as int]);
                        }
                        lines.push(line);
                        proof {
                            assert(lines.deep_view() =~= ld.push(
                                format_lines(paths.deep_view())[k as int],
                            ));
                            assert(lines.deep_view() =~= format_lines(paths.deep_view()).take(
                                k as int + 1,
                            ));
                            assert(lines.deep_view().drop_last() =~= ld);
                        }
                        if w > widest {
                            widest = w;
                        }
                        k += 1;
                    }
                    proof {
                        assert(format_lines(paths.deep_view()).take(paths@.len() as int)
                            =~= format_lines(paths.deep_view()));
                    }
                    self.modal = Some(
                        Modal::WhyDepends {
                            paths,
                            formatted_lines: lines,
                            max_line_width: widest,
                            selected: 0,
                            horizontal_scroll: 0,
                        },
                    );
                }
            },
            None => {},
        }
    }

    /// The context against which marginal sizes are judged, as identifiers.
    pub fn get_parent_context(&self) -> (r: Vec<String>)
        ensures
            r.deep_view() == parent_context_of(*self),
    {
        let hl = self.navigation_history.len();
        if hl > 0 {
            let entry = &self.navigation_history[hl - 1];
            proof {
                assert(self.navigation_history@.last() == self.navigation_history@[hl - 1]);
            }
            match entry.1 {
                Some(i) => {
                    if i < entry.0.len() {
                        let mut v: Vec<String> = Vec::new();
                        v.push(entry.0[i].clone());
                        proof {
                            assert(v.deep_view() =~= seq![entry.0@[i as int]@]);
                        }
                        v
                    } else {
                        let v = clone_string_vec(&entry.0);
                        proof {
                            assert(v.deep_view() =~= entry.0.deep_view());
                        }
                        v
                    }
                },
                None => {
                    let v = clone_string_vec(&entry.0);
                    proof {
                        assert(v.deep_view() =~= entry.0.deep_view());
                    }
                    v
                },
            }
        } else {
            let v = clone_string_vec(&self.graph.roots);
            proof {
                assert(v.deep_view() =~= self.graph@.roots);
            }
            v
        }
    }

    /// The initial state: the graph roots, sorted by descending transitive
    /// size, stand in the middle pane with the first selected and the side
    /// panes derived from it; no history, no search, no overlay.
    pub fn new(graph: StorePathGraph, stats: StatsTable) -> (app: App)
        ensures
            app.graph == graph,
            app.stats == stats,
            app.sort_order == SortOrder::ClosureSize,
            app.show_help == false,
            app.searching == false,
            app.search_query@ == Seq::<char>::empty(),
            app.navigation_history@.len() == 0,
            app.modal is None,
            app.active_pane == Pane::Current,
            app.current_items.deep_view() == spec_sort_ids(
                SortOrder::ClosureSize,
                stats@,
                graph@.roots,
            ),
            graph@.roots.len() == 0 ==> app.current_selected is None && app.current_path is None
                && app.previous_items@.len() == 0 && app.previous_selected is None
                && app.next_items@.len() == 0 && app.next_selected is None,
            graph@.roots.len() > 0 ==> app.current_selected == Some(0usize) && panes_refreshed(
                app,
                app,
                app.current_items.deep_view(),
                Some(0usize),
            ),
    {
        let mut app = App {
            graph,
            stats,
            sort_order: SortOrder::ClosureSize,
            active_pane: Pane::Current,
            show_help: false,
            searching: false,
            search_query: String::new(),
            previous_selected: None,
            current_selected: None,
            next_selected: None,
            previous_items: Vec::new(),
            current_items: Vec::new(),
            next_items: Vec::new(),
            current_path: None,
            navigation_history: Vec::new(),
            modal: None,
        };
        let mut items = clone_string_vec(&app.graph.roots);
        proof {
            assert(items.deep_view() =~= app.graph@.roots);
        }
        sort_paths(&mut items, &app.stats, app.sort_order);
        proof {
            crate::path_stats::lemma_sort_ids_sorted(app.sort_order, app.stats@, app.graph@.roots);
        }
        app.current_items = items;
        if app.current_items.len() > 0 {
            app.current_selected = Some(0);
            app.update_panes();
        }
        app
    }
}

/// `a` with another overlay.
pub open spec fn with_modal(a: App, m: Option<Modal>) -> App {
    App { modal: m, ..a }
}

/// `a` with another help flag.
pub open spec fn with_help(a: App, h: bool) -> App {
    App { show_help: h, ..a }
}

/// `a` with another search-mode flag.
pub open spec fn with_searching(a: App, s: bool) -> App {
    App { searching: s, ..a }
}

/// `a` with another sort order.
pub open spec fn with_order(a: App, o: SortOrder) -> App {
    App { sort_order: o, ..a }
}

/// The overlay cursor after a one-line downward step.
pub open spec fn modal_down(sel: usize, nlines: int) -> int {
    if (sel as int) < nlines - 1 {
        sel as int + 1
    } else {
        sel as int
    }
}

/// The overlay cursor after a one-line upward step.
pub open spec fn modal_up(sel: usize) -> int {
    if sel > 0 {
        sel as int - 1
    } else {
        0
    }
}

/// The overlay cursor after a page downward step, clamped to the last line.
pub open spec fn modal_page_down(sel: usize, nlines: int) -> int {
    let cap = if nlines >= 1 {
        nlines - 1
    } else {
        0
    };
    if sel as int + MODAL_PAGE_SIZE as int <= cap {
        sel as int + MODAL_PAGE_SIZE as int
    } else {
        cap
    }
}

/// The overlay cursor after a page upward step.
pub open spec fn modal_page_up(sel: usize) -> int {
    if sel >= MODAL_PAGE_SIZE {
        sel as int - MODAL_PAGE_SIZE as int
    } else {
        0
    }
}

/// The horizontal offset after a leftward scroll step.
pub open spec fn scroll_left(h: usize) -> int {
    if h >= HORIZONTAL_SCROLL_STEP {
        h as int - HORIZONTAL_SCROLL_STEP as int
    } else {
        0
    }
}

/// The horizontal offset after a rightward scroll step, clamped so that a
/// margin of the longest line stays reachable.
pub open spec fn scroll_right(h: usize, w: usize) -> int {
    let cap = if w >= HORIZONTAL_SCROLL_MARGIN {
        w as int - HORIZONTAL_SCROLL_MARGIN as int
    } else {
        0
    };
    if h as int + HORIZONTAL_SCROLL_STEP as int <= cap {
        h as int + HORIZONTAL_SCROLL_STEP as int
    } else {
        cap
    }
}

/// What a key does while the overlay is open: it intercepts every key;
/// closing, scrolling and cursor movement touch only the overlay, and
/// committing a line closes the overlay and replays its chain.
pub open spec fn modal_post(pre: App, post: App, key: KeyInput) -> bool {
    pre.modal->0 matches Modal::WhyDepends {
        paths,
        formatted_lines,
        max_line_width,
        selected,
        horizontal_scroll,
    } ==> match key {
        KeyInput::Esc => post == with_modal(pre, None),
        KeyInput::Down => post == with_modal(
            pre,
            Some(
                (Modal::WhyDepends {
                    paths,
                    formatted_lines,
                    max_line_width,
                    selected: modal_down(selected, formatted_lines@.len() as int) as usize,
                    horizontal_scroll,
                }),
            ),
        ),
        KeyInput::Up => post == with_modal(
            pre,
            Some(
                (Modal::WhyDepends {
                    paths,
                    formatted_lines,
                    max_line_width,
                    selected: modal_up(selected) as usize,
                    horizontal_scroll,
                }),
            ),
        ),
        KeyInput::PageDown => post == with_modal(
            pre,
            Some(
                (Modal::WhyDepends {
                    paths,
                    formatted_lines,
                    max_line_width,
                    selected: modal_page_down(selected, formatted_lines@.len() as int) as usize,
                    horizontal_scroll,
                }),
            ),
        ),
        KeyInput::PageUp => post == with_modal(
            pre,
            Some(
                (Modal::WhyDepends {
                    paths,
                    formatted_lines,
                    max_line_width,
                    selected: modal_page_up(selected) as usize,
                    horizontal_scroll,
                }),
            ),
        ),
        KeyInput::Left => post == with_modal(
            pre,
            Some(
                (Modal::WhyDepends {
                    paths,
                    formatted_lines,
                    max_line_width,
                    selected,
                    horizontal_scroll: scroll_left(horizontal_scroll) as usize,
                }),
            ),
        ),
        KeyInput::Right => post == with_modal(
            pre,
            Some(
                (Modal::WhyDepends {
                    paths,
                    formatted_lines,
                    max_line_width,
                    selected,
                    horizontal_scroll: scroll_right(horizontal_scroll, max_line_width) as usize,
                }),
            ),
        ),
        KeyInput::Enter => if (selected as int) < paths@.len() {
            &&& post.modal is None
            &&& same_data(pre, post)
            &&& post.sort_order == pre.sort_order
            &&& post.show_help == pre.show_help
            &&& post.searching == pre.searching
            &&& post.search_query == pre.search_query
            &&& nav_view(post) == spec_replay(
                pre.graph@,
                pre.stats@,
                pre.sort_order,
                nav_view(pre),
                paths.deep_view()[selected as int],
            )
        } else {
            post == pre
        },
        KeyInput::Char(c) => if c == 'q' {
            post == with_modal(pre, None)
        } else if c == 'j' {
            post == with_modal(
                pre,
                Some(
                    (Modal::WhyDepends {
                        paths,
                        formatted_lines,
                        max_line_width,
                        selected: modal_down(selected, formatted_lines@.len() as int) as usize,
                        horizontal_scroll,
                    }),
                ),
            )
        } else if c == 'k' {
            post == with_modal(
                pre,
                Some(
                    (Modal::WhyDepends {
                        paths,
                        formatted_lines,
                        max_line_width,
                        selected: modal_up(selected) as usize,
                        horizontal_scroll,
                    }),
                ),
            )
        } else if c == 'h' {
            post == with_modal(
                pre,
                Some(
                    (Modal::WhyDepends {
                        paths,
                        formatted_lines,
                        max_line_width,
                        selected,
                        horizontal_scroll: scroll_left(horizontal_scroll) as usize,
                    }),
                ),
            )
        } else if c == 'l' {
            post == with_modal(
                pre,
                Some(
                    (Modal::WhyDepends {
                        paths,
                        formatted_lines,
                        max_line_width,
                        selected,
                        horizontal_scroll: scroll_right(horizontal_scroll, max_line_width) as usize,
                    }),
                ),
            )
        } else {
            post == pre
        },
        _ => post == pre,
    }
}

/// What a key does in search mode: text entry edits the query, cancel clears
/// it, commit runs the search.
pub open spec fn searching_post(pre: App, post: App, key: KeyInput) -> bool {
    match key {
        KeyInput::Esc => {
            &&& same_data(pre, post)
            &&& post.sort_order == pre.sort_order
            &&& post.show_help == pre.show_help
            &&& post.modal == pre.modal
            &&& same_panes(pre, post)
            &&& post.searching == false
            &&& post.search_query@ == Seq::<char>::empty()
        },
        KeyInput::Enter => search_commit_post(with_searching(pre, false), post),
        KeyInput::Backspace => {
            &&& same_data(pre, post)
            &&& post.sort_order == pre.sort_order
            &&& post.show_help == pre.show_help
            &&& post.modal == pre.modal
            &&& same_panes(pre, post)
            &&& post.searching == pre.searching
            &&& post.search_query@ == (if pre.search_query@.len() > 0 {
                pre.search_query@.drop_last()
            } else {
                pre.search_query@
            })
        },
        KeyInput::Char(c) => {
            &&& same_data(pre, post)
            &&& post.sort_order == pre.sort_order
            &&& post.show_help == pre.show_help
            &&& post.modal == pre.modal
            &&& same_panes(pre, post)
            &&& post.searching == pre.searching
            &&& post.search_query@ == pre.search_query@.push(c)
        },
        _ => post == pre,
    }
}

impl App {
    /// Replaces the middle pane with all artifacts whose label contains the
    /// query, ignoring case; an empty query or a query without matches
    /// changes nothing.
    fn perform_search(&mut self)
        ensures
            search_commit_post(*old(self), *final(self)),
    {
        let ghost g = self.graph@;
        let ghost q0 = self.search_query@;
        let ghost pred = |n: NodeView| is_substring(lower_of(n.name), lower_of(q0));
        if self.search_query.as_str().is_empty() {
            return ;
        }
        let needle = lowercase(self.search_query.as_str());
        let mut matches: Vec<String> = Vec::new();
        let mut i: usize = 0;
        proof {
            assert(matches.deep_view() =~= g.nodes.take(0).filter(pred).map_values(
                |n: NodeView| n.id,
            ));
        }
        while i < self.graph.paths.len()
            invariant
                *self == *old(self),
                g == self.graph@,
                q0 == self.search_query@,
                needle@ == lower_of(q0),
                pred == (|n: NodeView| is_substring(lower_of(n.name), lower_of(q0))),
                0 <= i <= g.nodes.len(),
                g.nodes.len() == self.graph.paths@.len(),
                matches.deep_view() == g.nodes.take(i as int).filter(pred).map_values(
                    |n: NodeView| n.id,
                ),
            decreases g.nodes.len() - i,
        {
            proof {
                assert(g.nodes[i as int] == self.graph.paths@[i as int]@);
            }
            let lname = lowercase(self.graph.paths[i].name.as_str());
            let ghost md = matches.deep_view();
            if contains_chars(lname.as_str(), needle.as_str()) {
                matches.push(self.graph.paths[i].path.clone());
            }
            proof {
                lemma_filter_push(g.nodes.take(i as int), g.nodes[i as int], pred);
                assert(g.nodes.take(i as int).push(g.nodes[i as int]) =~= g.nodes.take(
                    i as int + 1,
                ));
                if pred(g.nodes[i as int]) {
                    assert(matches.deep_view() =~= md.push(g.nodes[i as int].id));
                    assert(g.nodes.take(i as int + 1).filter(pred).map_values(|n: NodeView| n.id)
                        =~= g.nodes.take(i as int).filter(pred).map_values(
                        |n: NodeView| n.id,
                    ).push(g.nodes[i as int].id));
                }
            }
            i += 1;
        }
        proof {
            assert(g.nodes.take(g.nodes.len() as int) =~= g.nodes);
        }
        if matches.len() > 0 {
            sort_paths(&mut matches, &self.stats, self.sort_order);
            self.current_items = matches;
            self.current_selected = Some(0);
            self.active_pane = Pane::Current;
            self.update_panes();
        }
    }

    /// Replays one why-depends chain, exactly as the manual drill-down
    /// would have done: the history is cleared, the middle pane is reset to
    /// the sorted graph roots, and then, for each link of the chain in
    /// order, the link is located in the middle pane, selected, the panes
    /// refresh, and one rightward descent follows unless the link is the
    /// last; a link that cannot be located is skipped.
    fn select_path_from_why_depends(&mut self, path: Vec<String>)
        ensures
            same_data(*old(self), *final(self)),
            final(self).sort_order == old(self).sort_order,
            final(self).show_help == old(self).show_help,
            final(self).searching == old(self).searching,
            final(self).search_query == old(self).search_query,
            final(self).modal == old(self).modal,
            nav_view(*final(self)) == spec_replay(
                old(self).graph@,
                old(self).stats@,
                old(self).sort_order,
                nav_view(*old(self)),
                path.deep_view(),
            ),
    {
        let ghost g = self.graph@;
        let ghost t = self.stats@;
        let ghost order = self.sort_order;
        let ghost chain = path.deep_view();
        let ghost view0 = nav_view(*old(self));
        self.navigation_history.clear();
        let mut items = clone_string_vec(&self.graph.roots);
        proof {
            assert(items.deep_view() =~= self.graph@.roots);
        }
        sort_paths(&mut items, &self.stats, self.sort_order);
        self.current_items = items;
        proof {
            assert(self.navigation_history.deep_view() =~= Seq::<(
                Seq<Seq<char>>,
                Option<usize>,
            )>::empty());
            assert(nav_view(*self) == (NavView {
                items: spec_sort_ids(order, t, g.roots),
                hist: Seq::empty(),
                ..view0
            }));
        }
        let mut i: usize = 0;
        while i < path.len()
            invariant
                g == self.graph@,
                t == self.stats@,
                order == self.sort_order,
                chain == path.deep_view(),
                chain.len() == path@.len(),
                same_data(*old(self), *self),
                self.sort_order == old(self).sort_order,
                self.show_help == old(self).show_help,
                self.searching == old(self).searching,
                self.search_query == old(self).search_query,
                self.modal == old(self).modal,
                0 <= i <= path@.len(),
                replay_from(g, t, order, nav_view(*self), chain, i as int) == spec_replay(
                    g,
                    t,
                    order,
                    view0,
                    chain,
                ),
            decreases path@.len() - i,
        {
            let ghost view_pre = nav_view(*self);
            proof {
                assert(chain[i as int] == path@[i as int]@);
            }
            match find_id(&self.current_items, path[i].as_str()) {
                Some(idx) => {
                    self.current_selected = Some(idx);
                    let ghost view_sel = nav_view(*self);
                    proof {
                        assert(view_sel == (NavView { sel: Some(idx), ..view_pre }));
                    }
                    let ghost mid = *self;
                    self.update_panes();
                    proof {
                        lemma_refresh_matches(g, t, order, mid, *self);
                    }
                    if i + 1 < path.len() {
                        let ghost mid2 = *self;
                        self.move_right();
                        proof {
                            lemma_right_matches(g, t, order, mid2, *self);
                        }
                    }
                    proof {
                        assert(idx_of(view_pre.items, chain[i as int]) == idx as int);
                    }
                },
                None => {
                    proof {
                        assert(idx_of(view_pre.items, chain[i as int]) < 0);
                    }
                },
            }
            i += 1;
        }
        proof {
            assert(replay_from(g, t, order, nav_view(*self), chain, path@.len() as int)
                == nav_view(*self));
        }
    }

    /// Applies one input event: an open overlay intercepts every key; search
    /// mode consumes text entry; otherwise the browsing transitions apply.
    /// Yields `true` exactly when the event asks to quit.
    pub fn handle_key(&mut self, key: KeyInput) -> (quit: bool)
        ensures
            old(self).modal is Some ==> modal_post(*old(self), *final(self), key) && quit == false,
            (old(self).modal is None && old(self).searching) ==> searching_post(
                *old(self),
                *final(self),
                key,
            ) && quit == false,
            (old(self).modal is None && !old(self).searching) ==> ({
                &&& quit == (key == KeyInput::Esc || key == KeyInput::Char('q'))
                &&& match key {
                    KeyInput::Esc => *final(self) == *old(self),
                    KeyInput::Down => down_post(*old(self), *final(self)),
                    KeyInput::Up => up_post(*old(self), *final(self)),
                    KeyInput::Left => left_post(*old(self), *final(self)),
                    KeyInput::Right => right_post(*old(self), *final(self)),
                    KeyInput::Enter => {
                        &&& same_engine(*old(self), *final(self))
                        &&& final(self).current_items == old(self).current_items
                        &&& final(self).current_selected == old(self).current_selected
                        &&& final(self).navigation_history == old(self).navigation_history
                        &&& panes_refreshed(
                            *old(self),
                            *final(self),
                            old(self).current_items.deep_view(),
                            old(self).current_selected,
                        )
                    },
                    KeyInput::Char(c) => if c == 'q' {
                        *final(self) == *old(self)
                    } else if c == '?' {
                        *final(self) == with_help(*old(self), !old(self).show_help)
                    } else if c == '/' {
                        &&& same_data(*old(self), *final(self))
                        &&& final(self).sort_order == old(self).sort_order
                        &&& final(self).show_help == old(self).show_help
                        &&& final(self).modal == old(self).modal
                        &&& same_panes(*old(self), *final(self))
                        &&& final(self).searching == true
                        &&& final(self).search_query@ == Seq::<char>::empty()
                    } else if c == 'w' {
                        why_post(*old(self), *final(self))
                    } else if c == 's' {
                        &&& final(self).sort_order == old(self).sort_order.spec_next()
                        &&& resort_post(
                            with_order(*old(self), old(self).sort_order.spec_next()),
                            *final(self),
                            old(self).sort_order.spec_next(),
                        )
                    } else if c == 'j' {
                        down_post(*old(self), *final(self))
                    } else if c == 'k' {
                        up_post(*old(self), *final(self))
                    } else if c == 'h' {
                        left_post(*old(self), *final(self))
                    } else if c == 'l' {
                        right_post(*old(self), *final(self))
                    } else {
                        *final(self) == *old(self)
                    },
                    _ => *final(self) == *old(self),
                }
            }),
    {
        let taken = self.modal.take();
        match taken {
            Some(m) => {
                match m {
                    Modal::WhyDepends {
                        paths,
                        formatted_lines,
                        max_line_width,
                        selected,
                        horizontal_scroll,
                    } => {
                        match key {
                            KeyInput::Esc => {},
                            KeyInput::Down => {
                                let nlines = formatted_lines.len();
                                let ns: usize = if nlines > 0 && selected < nlines - 1 {
                                    selected + 1
                                } else {
                                    selected
                                };
                                self.modal = Some(
                                    Modal::WhyDepends {
                                        paths,
                                        formatted_lines,
                                        max_line_width,
                                        selected: ns,
                                        horizontal_scroll,
                                    },
                                );
                            },
                            KeyInput::Up => {
                                let ns: usize = if selected > 0 {
                                    selected - 1
                                } else {
                                    0
                                };
                                self.modal = Some(
                                    Modal::WhyDepends {
                                        paths,
                                        formatted_lines,
                                        max_line_width,
                                        selected: ns,
                                        horizontal_scroll,
                                    },
                                );
                            },
                            KeyInput::PageDown => {
                                let nlines = formatted_lines.len();
                                let cap: usize = if nlines >= 1 {
                                    nlines - 1
                                } else {
                                    0
                                };
                                let ns: usize = if selected <= cap && cap - selected
                                    >= MODAL_PAGE_SIZE {
                                    selected + MODAL_PAGE_SIZE
                                } else {
                                    cap
                                };
                                self.modal = Some(
                                    Modal::WhyDepends {
                                        paths,
                                        formatted_lines,
                                        max_line_width,
                                        selected: ns,
                                        horizontal_scroll,
                                    },
                                );
                            },
                            KeyInput::PageUp => {
                                let ns: usize = if selected >= MODAL_PAGE_SIZE {
                                    selected - MODAL_PAGE_SIZE
                                } else {
                                    0
                                };
                                self.modal = Some(
                                    Modal::WhyDepends {
                                        paths,
                                        formatted_lines,
                                        max_line_width,
                                        selected: ns,
                                        horizontal_scroll,
                                    },
                                );
                            },
                            KeyInput::Left => {
                                let nh: usize = if horizontal_scroll >= HORIZONTAL_SCROLL_STEP {
                                    horizontal_scroll - HORIZONTAL_SCROLL_STEP
                                } else {
                                    0
                                };
                                self.modal = Some(
                                    Modal::WhyDepends {
                                        paths,
                                        formatted_lines,
                                        max_line_width,
                                        selected,
                                        horizontal_scroll: nh,
                                    },
                                );
                            },
                            KeyInput::Right => {
                                let cap: usize = if max_line_width >= HORIZONTAL_SCROLL_MARGIN {
                                    max_line_width - HORIZONTAL_SCROLL_MARGIN
                                } else {
                                    0
                                };
                                let nh: usize = if horizontal_scroll <= cap && cap
                                    - horizontal_scroll >= HORIZONTAL_SCROLL_STEP {
                                    horizontal_scroll + HORIZONTAL_SCROLL_STEP
                                } else {
                                    cap
                                };
                                self.modal = Some(
                                    Modal::WhyDepends {
                                        paths,
                                        formatted_lines,
                                        max_line_width,
                                        selected,
                                        horizontal_scroll: nh,
                                    },
                                );
                            },
                            KeyInput::Enter => {
                                if selected < paths.len() {
                                    let chosen = clone_string_vec(&paths[selected]);
                                    proof {
                                        assert(chosen.deep_view() =~= paths@[selected as int].deep_view());
                                        assert(paths.deep_view()[selected as int] == paths@[selected as int].deep_view());
                                        assert(nav_view(*self) == nav_view(*old(self)));
                                    }
                                    self.select_path_from_why_depends(chosen);
                                } else {
                                    self.modal = Some(
                                        Modal::WhyDepends {
                                            paths,
                                            formatted_lines,
                                            max_line_width,
                                            selected,
                                            horizontal_scroll,
                                        },
                                    );
                                }
                            },
                            KeyInput::Char(c) => {
                                if c == 'q' {
                                } else if c == 'j' {
                                    let nlines = formatted_lines.len();
                                    let ns: usize = if nlines > 0 && selected < nlines - 1 {
                                        selected + 1
                                    } else {
                                        selected
                                    };
                                    self.modal = Some(
                                        Modal::WhyDepends {
                                            paths,
                                            formatted_lines,
                                            max_line_width,
                                            selected: ns,
                                            horizontal_scroll,
                                        },
                                    );
                                } else if c == 'k' {
                                    let ns: usize = if selected > 0 {
                                        selected - 1
                                    } else {
                                        0
                                    };
                                    self.modal = Some(
                                        Modal::WhyDepends {
                                            paths,
                                            formatted_lines,
                                            max_line_width,
                                            selected: ns,
                                            horizontal_scroll,
                                        },
                                    );
                                } else if c == 'h' {
                                    let nh: usize = if horizontal_scroll
                                        >= HORIZONTAL_SCROLL_STEP {
                                        horizontal_scroll - HORIZONTAL_SCROLL_STEP
                                    } else {
                                        0
                                    };
                                    self.modal = Some(
                                        Modal::WhyDepends {
                                            paths,
                                            formatted_lines,
                                            max_line_width,
                                            selected,
                                            horizontal_scroll: nh,
                                        },
                                    );
                                } else if c == 'l' {
                                    let cap: usize = if max_line_width
                                        >= HORIZONTAL_SCROLL_MARGIN {
                                        max_line_width - HORIZONTAL_SCROLL_MARGIN
                                    } else {
                                        0
                                    };
                                    let nh: usize = if horizontal_scroll <= cap && cap
                                        - horizontal_scroll >= HORIZONTAL_SCROLL_STEP {
                                        horizontal_scroll + HORIZONTAL_SCROLL_STEP
                                    } else {
                                        cap
                                    };
                                    self.modal = Some(
                                        Modal::WhyDepends {
                                            paths,
                                            formatted_lines,
                                            max_line_width,
                                            selected,
                                            horizontal_scroll: nh,
                                        },
                                    );
                                } else {
                                    self.modal = Some(
                                        Modal::WhyDepends {
                                            paths,
                                            formatted_lines,
                                            max_line_width,
                                            selected,
                                            horizontal_scroll,
                                        },
                                    );
                                }
                            },
                            KeyInput::Backspace => {
                                self.modal = Some(
                                    Modal::WhyDepends {
                                        paths,
                                        formatted_lines,
                                        max_line_width,
                                        selected,
                                        horizontal_scroll,
                                    },
                                );
                            },
                        }
                    },
                }
                return false;
            },
            None => {},
        }
        if self.searching {
            match key {
                KeyInput::Esc => {
                    self.searching = false;
                    self.search_query = String::new();
                },
                KeyInput::Enter => {
                    self.searching = false;
                    self.perform_search();
                },
                KeyInput::Backspace => {
                    let n = self.search_query.as_str().unicode_len();
                    if n > 0 {
                        let q = self.search_query.as_str().substring_char(0, n - 1).to_owned();
                        proof {
                            assert(q@ =~= self.search_query@.drop_last());
                        }
                        self.search_query = q;
                    }
                },
                KeyInput::Char(c) => {
                    push_char(&mut self.search_query, c);
                },
                _ => {},
            }
            return false;
        }
        match key {
            KeyInput::Esc => {
                return true;
            },
            KeyInput::Down => self.move_down(),
            KeyInput::Up => self.move_up(),
            KeyInput::Left => self.move_left(),
            KeyInput::Right => self.move_right(),
            KeyInput::Enter => self.select_item(),
            KeyInput::Char(c) => {
                if c == 'q' {
                    return true;
                } else if c == '?' {
                    self.show_help = !self.show_help;
                } else if c == '/' {
                    self.searching = true;
                    self.search_query = String::new();
                } else if c == 'w' {
                    self.show_why_depends();
                } else if c == 's' {
                    self.sort_order = self.sort_order.next();
                    self.resort_current_pane();
                } else if c == 'j' {
                    self.move_down();
                } else if c == 'k' {
                    self.move_up();
                } else if c == 'h' {
                    self.move_left();
                } else if c == 'l' {
                    self.move_right();
                }
            },
            _ => {},
        }
        false
    }
}

} // verus!
