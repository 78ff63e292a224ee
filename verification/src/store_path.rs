use vstd::prelude::*;

use crate::util::contains_str;
use crate::util::lemma_filter_push;
use crate::util::str_eq;

verus! {

/// Why a string was rejected as a store artifact identifier.
#[derive(Debug, Clone, Copy, PartialEq, Eq, Structural)]
pub enum StorePathError {
    MalformedIdentifier,
}

impl StorePathError {
    /// A short human-readable description, for unverified front ends to print.
    pub fn message(&self) -> (m: &'static str)
        ensures
            m@ == spec_malformed_message(),
    {
        "malformed store path identifier"
    }
}

/// The text of the `MalformedIdentifier` description.
pub open spec fn spec_malformed_message() -> Seq<char> {
    "malformed store path identifier"@
}

/// One content-addressed store artifact: its identifier, the fingerprint and
/// human label carved out of the identifier, its own size, an optional
/// precomputed transitive size, its direct dependencies and its signers.
#[derive(Debug, Clone)]
pub struct StorePath {
    pub path: String,
    pub hash: String,
    pub name: String,
    pub nar_size: u64,
    pub closure_size: Option<u64>,
    pub references: Vec<String>,
    pub signatures: Vec<String>,
}

/// The mathematical content of one artifact.
pub ghost struct NodeView {
    pub id: Seq<char>,
    pub hash: Seq<char>,
    pub name: Seq<char>,
    pub nar_size: u64,
    pub closure_size: Option<u64>,
    pub references: Seq<Seq<char>>,
    pub signatures: Seq<Seq<char>>,
}

impl View for StorePath {
    type V = NodeView;

    open spec fn view(&self) -> NodeView {
        NodeView {
            id: self.path@,
            hash: self.hash@,
            name: self.name@,
            nar_size: self.nar_size,
            closure_size: self.closure_size,
            references: self.references.deep_view(),
            signatures: self.signatures.deep_view(),
        }
    }
}

impl StorePath {
    /// The human label of this artifact.
    pub fn short_name(&self) -> (r: &str)
        ensures
            r@ == self@.name,
    {
        self.name.as_str()
    }

    /// Whether at least one signer vouches for this artifact.
    pub fn is_signed(&self) -> (r: bool)
        ensures
            r == (self@.signatures.len() > 0),
    {
        !self.signatures.is_empty()
    }
}

/// The Unicode white-space characters, exactly the set that
/// `char::is_whitespace` reports.
pub open spec fn is_space_char(c: char) -> bool {
    let u = c as u32;
    (9 <= u && u <= 13) || u == 32 || u == 0x85 || u == 0xa0 || u == 0x1680 || (0x2000 <= u && u
        <= 0x200a) || u == 0x2028 || u == 0x2029 || u == 0x202f || u == 0x205f || u == 0x3000
}

fn is_space(c: char) -> (r: bool)
    ensures
        r == is_space_char(c),
{
    let u = c as u32;
    (9 <= u && u <= 13) || u == 32 || u == 0x85 || u == 0xa0 || u == 0x1680 || (0x2000 <= u && u
        <= 0x200a) || u == 0x2028 || u == 0x2029 || u == 0x202f || u == 0x205f || u == 0x3000
}

/// `s` with its leading white space removed.
pub open spec fn trim_front(s: Seq<char>) -> Seq<char>
    decreases s.len(),
{
    if s.len() > 0 && is_space_char(s[0]) {
        trim_front(s.drop_first())
    } else {
        s
    }
}

/// `s` with its trailing white space removed.
pub open spec fn trim_back(s: Seq<char>) -> Seq<char>
    decreases s.len(),
{
    if s.len() > 0 && is_space_char(s.last()) {
        trim_back(s.drop_last())
    } else {
        s
    }
}

/// `s` with white space removed from both ends.
pub open spec fn spec_trim(s: Seq<char>) -> Seq<char> {
    trim_back(trim_front(s))
}

proof fn lemma_trim_front_range(s: Seq<char>, lo: int)
    requires
        0 <= lo <= s.len(),
        forall|j: int| 0 <= j < lo ==> is_space_char(s[j]),
        lo == s.len() || !is_space_char(s[lo]),
    ensures
        trim_front(s) == s.subrange(lo, s.len() as int),
    decreases lo,
{
    if lo == 0 {
        assert(s.subrange(0, s.len() as int) =~= s);
    } else {
        let t = s.drop_first();
        assert(forall|j: int| 0 <= j < t.len() ==> t[j] == s[j + 1]);
        lemma_trim_front_range(t, lo - 1);
        assert(t.subrange(lo - 1, t.len() as int) =~= s.subrange(lo, s.len() as int));
    }
}

proof fn lemma_trim_back_range(s: Seq<char>, hi: int)
    requires
        0 <= hi <= s.len(),
        forall|j: int| hi <= j < s.len() ==> is_space_char(s[j]),
        hi == 0 || !is_space_char(s[hi - 1]),
    ensures
        trim_back(s) == s.subrange(0, hi),
    decreases s.len() - hi,
{
    if hi == s.len() {
        assert(s.subrange(0, hi) =~= s);
    } else {
        assert(is_space_char(s.last()));
        let t = s.drop_last();
        lemma_trim_back_range(t, hi);
        assert(t.subrange(0, hi) =~= s.subrange(0, hi));
    }
}

/// The identifier prefix every store artifact starts with.
pub open spec fn store_prefix() -> Seq<char> {
    "/nix/store/"@
}

/// `s` starts with `p`.
pub open spec fn spec_has_prefix(s: Seq<char>, p: Seq<char>) -> bool {
    s.len() >= p.len() && s.subrange(0, p.len() as int) == p
}

pub(crate) fn str_has_prefix(s: &str, p: &str) -> (r: bool)
    ensures
        r == spec_has_prefix(s@, p@),
{
    let np = p.unicode_len();
    let ns = s.unicode_len();
    if ns < np {
        return false;
    }
    let mut i: usize = 0;
    while i < np
        invariant
            np == p@.len(),
            ns == s@.len(),
            ns >= np,
            0 <= i <= np,
            forall|j: int| 0 <= j < i ==> s@[j] == p@[j],
        decreases np - i,
    {
        if s.get_char(i) != p.get_char(i) {
            proof {
                if spec_has_prefix(s@, p@) {
                    assert(s@.subrange(0, p@.len() as int)[i as int] == s@[i as int]);
                }
            }
            return false;
        }
        i += 1;
    }
    proof {
        assert(s@.subrange(0, np as int) =~= p@);
    }
    true
}

/// The first position at or after `i` holding `'-'`, or `s.len()` if none.
pub open spec fn dash_pos(s: Seq<char>, i: int) -> int
    decreases s.len() - i,
{
    if 0 <= i < s.len() {
        if s[i] == '-' {
            i
        } else {
            dash_pos(s, i + 1)
        }
    } else {
        s.len() as int
    }
}

pub proof fn lemma_dash_pos(s: Seq<char>, i: int, d: int)
    requires
        0 <= i <= d <= s.len(),
        forall|j: int| i <= j < d ==> s[j] != '-',
        d == s.len() || s[d] == '-',
    ensures
        dash_pos(s, i) == d,
    decreases d - i,
{
    if i < d {
        lemma_dash_pos(s, i + 1, d);
    }
}

/// A string is a well-formed store identifier when, after trimming
/// surrounding white space, it starts with the store prefix, the first `'-'`
/// after the prefix exists, and exactly 32 fingerprint characters stand
/// between the prefix and that dash.
pub open spec fn spec_parse_ok(s: Seq<char>) -> bool {
    let t = spec_trim(s);
    t.len() >= 11 && t.subrange(0, 11) == store_prefix() && dash_pos(t, 11) < t.len() && dash_pos(
        t,
        11,
    ) == 43
}

/// The fingerprint segment of a well-formed identifier.
pub open spec fn spec_parse_hash(s: Seq<char>) -> Seq<char> {
    spec_trim(s).subrange(11, 43)
}

/// The name segment of a well-formed identifier.
pub open spec fn spec_parse_name(s: Seq<char>) -> Seq<char> {
    let t = spec_trim(s);
    t.subrange(44, t.len() as int)
}

impl StorePath {
    /// Splits a store identifier into its fingerprint and name segments.
    /// Succeeds exactly on well-formed identifiers; every rejection is a
    /// `MalformedIdentifier`.
    pub fn parse(path: &str) -> (r: Result<(String, String), StorePathError>)
        ensures
            r is Ok <==> spec_parse_ok(path@),
            r is Ok ==> r->Ok_0.0@ == spec_parse_hash(path@) && r->Ok_0.1@ == spec_parse_name(
                path@,
            ),
            r is Err ==> r->Err_0 == StorePathError::MalformedIdentifier,
    {
        let n = path.unicode_len();
        let mut lo: usize = 0;
        while lo < n && is_space(path.get_char(lo))
            invariant
                n == path@.len(),
                0 <= lo <= n,
                forall|j: int| 0 <= j < lo ==> is_space_char(path@[j]),
            decreases n - lo,
        {
            lo += 1;
        }
        let mut hi: usize = n;
        while hi > lo && is_space(path.get_char(hi - 1))
            invariant
                n == path@.len(),
                0 <= lo <= hi <= n,
                forall|j: int| hi <= j < n ==> is_space_char(path@[j]),
            decreases hi,
        {
            hi -= 1;
        }
        let t = path.substring_char(lo, hi);
        proof {
            if lo == hi && lo < n {
                assert(is_space_char(path@[lo as int]));
                assert(false);
            }
            lemma_trim_front_range(path@, lo as int);
            let u = path@.subrange(lo as int, n as int);
            assert(forall|j: int|
                hi - lo <= j < u.len() ==> u[j] == path@[j + lo] && is_space_char(u[j]));
            if hi > lo {
                assert(u[hi - lo - 1] == path@[hi - 1]);
            }
            lemma_trim_back_range(u, hi - lo);
            assert(u.subrange(0, hi - lo) =~= path@.subrange(lo as int, hi as int));
            assert(spec_trim(path@) == t@);
        }
        let tlen = hi - lo;
        if !str_has_prefix(t, "/nix/store/") {
            proof {
                reveal_strlit("/nix/store/");
            }
            return Err(StorePathError::MalformedIdentifier);
        }
        proof {
            reveal_strlit("/nix/store/");
            assert(t@.len() >= 11);
        }
        let mut d: usize = 11;
        while d < tlen && t.get_char(d) != '-'
            invariant
                tlen == t@.len(),
                11 <= d <= tlen,
                forall|j: int| 11 <= j < d ==> t@[j] != '-',
            decreases tlen - d,
        {
            d += 1;
        }
        proof {
            lemma_dash_pos(t@, 11, d as int);
        }
        if d == tlen {
            return Err(StorePathError::MalformedIdentifier);
        }
        if d != 43 {
            return Err(StorePathError::MalformedIdentifier);
        }
        let hash = t.substring_char(11, 43).to_owned();
        let name = t.substring_char(44, tlen).to_owned();
        Ok((hash, name))
    }
}

/// The number of nodes in `nodes` carrying exactly the label `name`.
pub open spec fn name_count(nodes: Seq<NodeView>, name: Seq<char>) -> int {
    nodes.filter(|n: NodeView| n.name == name).len() as int
}

/// The label a node receives when its original label is shared: the first
/// eight fingerprint characters, a dash, then the original label.
pub open spec fn disambiguated(n: NodeView) -> Seq<char> {
    n.hash.take(8) + seq!['-'] + n.name
}

/// All fields except the label agree.
pub open spec fn same_but_name(a: NodeView, b: NodeView) -> bool {
    b.id == a.id && b.hash == a.hash && b.nar_size == a.nar_size && b.closure_size
        == a.closure_size && b.references == a.references && b.signatures == a.signatures
}

/// A copy of the strings in `v`, element for element.
pub(crate) fn clone_string_vec(v: &Vec<String>) -> (r: Vec<String>)
    ensures
        r@ == v@,
{
    let mut r: Vec<String> = Vec::new();
    let mut i: usize = 0;
    while i < v.len()
        invariant
            0 <= i <= v@.len(),
            r@ =~= v@.take(i as int),
        decreases v@.len() - i,
    {
        r.push(v[i].clone());
        i += 1;
    }
    proof {
        assert(v@.take(v@.len() as int) =~= v@);
    }
    r
}

/// A copy of one artifact with the same mathematical content.
fn clone_node(p: &StorePath) -> (r: StorePath)
    ensures
        r@ == p@,
{
    let r = StorePath {
        path: p.path.clone(),
        hash: p.hash.clone(),
        name: p.name.clone(),
        nar_size: p.nar_size,
        closure_size: p.closure_size,
        references: clone_string_vec(&p.references),
        signatures: clone_string_vec(&p.signatures),
    };
    proof {
        assert(r.references.deep_view() =~= p.references.deep_view());
        assert(r.signatures.deep_view() =~= p.signatures.deep_view());
    }
    r
}

/// The dependency graph: all known artifacts plus the entry-point identifiers.
#[derive(Debug, Clone)]
pub struct StorePathGraph {
    pub paths: Vec<StorePath>,
    pub roots: Vec<String>,
}

/// The mathematical content of the graph.
pub ghost struct GraphView {
    pub nodes: Seq<NodeView>,
    pub roots: Seq<Seq<char>>,
}

impl View for StorePathGraph {
    type V = GraphView;

    open spec fn view(&self) -> GraphView {
        GraphView {
            nodes: self.paths@.map_values(|p: StorePath| p@),
            roots: self.roots.deep_view(),
        }
    }
}

/// Whether some node of `g` carries the identifier `id`.
pub open spec fn has_node(g: GraphView, id: Seq<char>) -> bool {
    exists|i: int| 0 <= i < g.nodes.len() && g.nodes[i].id == id
}

/// The first position whose node carries `id`, or `-1` when there is none.
/// Lookups always resolve an identifier to its first occurrence.
pub open spec fn index_of_id(nodes: Seq<NodeView>, id: Seq<char>) -> int
    decreases nodes.len(),
{
    if nodes.len() == 0 {
        -1
    } else if nodes[0].id == id {
        0
    } else {
        let r = index_of_id(nodes.drop_first(), id);
        if r < 0 {
            -1
        } else {
            r + 1
        }
    }
}

/// The node that a lookup of `id` yields (meaningful only when `has_node`).
pub open spec fn node_at(g: GraphView, id: Seq<char>) -> NodeView {
    g.nodes[index_of_id(g.nodes, id)]
}

pub proof fn lemma_index_of_id(nodes: Seq<NodeView>, id: Seq<char>)
    ensures
        (index_of_id(nodes, id) >= 0) <==> (exists|i: int|
            0 <= i < nodes.len() && nodes[i].id == id),
        index_of_id(nodes, id) >= 0 ==> index_of_id(nodes, id) < nodes.len()
            && nodes[index_of_id(nodes, id)].id == id,
        index_of_id(nodes, id) >= 0 ==> (forall|j: int|
            0 <= j < index_of_id(nodes, id) ==> nodes[j].id != id),
        index_of_id(nodes, id) < 0 ==> index_of_id(nodes, id) == -1,
    decreases nodes.len(),
{
    if nodes.len() == 0 {
    } else if nodes[0].id == id {
    } else {
        lemma_index_of_id(nodes.drop_first(), id);
        assert(forall|j: int|
            0 <= j < nodes.drop_first().len() ==> nodes.drop_first()[j] == nodes[j + 1]);
        if index_of_id(nodes, id) >= 0 {
            assert forall|j: int| 0 <= j < index_of_id(nodes, id) implies nodes[j].id != id by {
                if j > 0 {
                    assert(nodes.drop_first()[j - 1].id != id);
                }
            }
        }
        if exists|i: int| 0 <= i < nodes.len() && nodes[i].id == id {
            let i = choose|i: int| 0 <= i < nodes.len() && nodes[i].id == id;
            assert(i != 0);
            assert(nodes.drop_first()[i - 1].id == id);
        }
    }
}

/// The direct dependencies that a lookup of `id` resolves: the stored
/// reference order, self-references and identifiers absent from the store
/// dropped, each remaining identifier resolved to its node.
pub open spec fn resolved_refs(g: GraphView, id: Seq<char>) -> Seq<NodeView> {
    if has_node(g, id) {
        node_at(g, id).references.filter(
            |rid: Seq<char>| rid != id && has_node(g, rid),
        ).map_values(|rid: Seq<char>| node_at(g, rid))
    } else {
        Seq::empty()
    }
}

/// The nodes whose reference lists mention `id`, the node carrying `id`
/// itself excluded, in graph order.
pub open spec fn referrers(g: GraphView, id: Seq<char>) -> Seq<NodeView> {
    g.nodes.filter(|n: NodeView| n.id != id && n.references.contains(id))
}

impl StorePathGraph {
    /// An empty graph: no artifacts, no roots.
    pub fn new() -> (g: Self)
        ensures
            g@.nodes == Seq::<NodeView>::empty(),
            g@.roots == Seq::<Seq<char>>::empty(),
    {
        let g = StorePathGraph { paths: Vec::new(), roots: Vec::new() };
        proof {
            assert(g@.nodes =~= Seq::<NodeView>::empty());
            assert(g@.roots =~= Seq::<Seq<char>>::empty());
        }
        g
    }

    /// Appends one artifact; everything already stored is untouched.
    pub fn add_path(&mut self, path: StorePath)
        ensures
            final(self)@.nodes == old(self)@.nodes.push(path@),
            final(self)@.roots == old(self)@.roots,
    {
        let ghost pv = path@;
        self.paths.push(path);
        proof {
            assert(self@.nodes =~= old(self)@.nodes.push(pv));
        }
    }

    /// Looks an identifier up; yields the first node carrying it, if any.
    pub fn get_path<'a>(&'a self, path: &str) -> (r: Option<&'a StorePath>)
        ensures
            match r {
                Some(p) => has_node(self@, path@) && p@ == node_at(self@, path@),
                None => !has_node(self@, path@),
            },
    {
        let mut i: usize = 0;
        while i < self.paths.len()
            invariant
                0 <= i <= self@.nodes.len(),
                self@.nodes.len() == self.paths@.len(),
                forall|j: int| 0 <= j < i ==> self@.nodes[j].id != path@,
            decreases self.paths@.len() - i,
        {
            if str_eq(self.paths[i].path.as_str(), path) {
                proof {
                    assert(self@.nodes[i as int].id == path@);
                    lemma_index_of_id(self@.nodes, path@);
                    let idx = index_of_id(self@.nodes, path@);
                    assert(idx == i);
                }
                return Some(&self.paths[i]);
            }
            proof {
                assert(self@.nodes[i as int].id == self.paths@[i as int].path@);
            }
            i += 1;
        }
        None
    }

    /// The resolved direct dependencies of `path`, in stored reference order,
    /// self-references and dangling identifiers excluded.
    pub fn get_references<'a>(&'a self, path: &str) -> (r: Vec<&'a StorePath>)
        ensures
            r@.map_values(|p: &StorePath| p@) == resolved_refs(self@, path@),
    {
        let ghost g = self@;
        let ghost pred = |rid: Seq<char>| rid != path@ && has_node(g, rid);
        match self.get_path(path) {
            Some(sp) => {
                let ghost refs = sp@.references;
                let mut out: Vec<&StorePath> = Vec::new();
                let mut k: usize = 0;
                while k < sp.references.len()
                    invariant
                        0 <= k <= refs.len(),
                        refs.len() == sp.references@.len(),
                        refs == sp@.references,
                        sp@ == node_at(g, path@),
                        has_node(g, path@),
                        g == self@,
                        out@.map_values(|p: &StorePath| p@) == refs.take(k as int).filter(
                            pred,
                        ).map_values(|rid: Seq<char>| node_at(g, rid)),
                        pred == (|rid: Seq<char>| rid != path@ && has_node(g, rid)),
                    decreases refs.len() - k,
                {
                    let ghost prev = out@.map_values(|p: &StorePath| p@);
                    let rid = &sp.references[k];
                    proof {
                        assert(refs[k as int] == sp.references@[k as int]@);
                    }
                    if !str_eq(rid.as_str(), path) {
                        match self.get_path(rid.as_str()) {
                            Some(q) => {
                                out.push(q);
                                proof {
                                    assert(out@.map_values(|p: &StorePath| p@) =~= prev.push(
                                        node_at(g, refs[k as int]),
                                    ));
                                }
                            },
                            None => {},
                        }
                    }
                    proof {
                        lemma_filter_push(refs.take(k as int), refs[k as int], pred);
                        assert(refs.take(k as int).push(refs[k as int]) =~= refs.take(
                            k as int + 1,
                        ));
                        if pred(refs[k as int]) {
                            assert(refs.take(k as int + 1).filter(pred).map_values(
                                |rid: Seq<char>| node_at(g, rid),
                            ) =~= refs.take(k as int).filter(pred).map_values(
                                |rid: Seq<char>| node_at(g, rid),
                            ).push(node_at(g, refs[k as int])));
                        }
                    }
                    k += 1;
                }
                proof {
                    assert(refs.take(refs.len() as int) =~= refs);
                }
                out
            },
            None => {
                let out: Vec<&StorePath> = Vec::new();
                proof {
                    assert(out@.map_values(|p: &StorePath| p@) =~= Seq::<NodeView>::empty());
                }
                out
            },
        }
    }

    /// Every node other than `path`'s own whose references mention `path`,
    /// in graph order; found by a full scan.
    pub fn get_referrers<'a>(&'a self, path: &str) -> (r: Vec<&'a StorePath>)
        ensures
            r@.map_values(|p: &StorePath| p@) == referrers(self@, path@),
    {
        let ghost g = self@;
        let ghost pred = |n: NodeView| n.id != path@ && n.references.contains(path@);
        let mut out: Vec<&StorePath> = Vec::new();
        let mut i: usize = 0;
        while i < self.paths.len()
            invariant
                0 <= i <= g.nodes.len(),
                g.nodes.len() == self.paths@.len(),
                g == self@,
                out@.map_values(|p: &StorePath| p@) == g.nodes.take(i as int).filter(pred),
                pred == (|n: NodeView| n.id != path@ && n.references.contains(path@)),
            decreases self.paths@.len() - i,
        {
            let ghost prev = out@.map_values(|p: &StorePath| p@);
            proof {
                assert(g.nodes[i as int] == self.paths@[i as int]@);
            }
            let keep = !str_eq(self.paths[i].path.as_str(), path) && contains_str(
                &self.paths[i].references,
                path,
            );
            if keep {
                out.push(&self.paths[i]);
                proof {
                    assert(out@.map_values(|p: &StorePath| p@) =~= prev.push(g.nodes[i as int]));
                }
            }
            proof {
                lemma_filter_push(g.nodes.take(i as int), g.nodes[i as int], pred);
                assert(g.nodes.take(i as int).push(g.nodes[i as int]) =~= g.nodes.take(
                    i as int + 1,
                ));
            }
            i += 1;
        }
        proof {
            assert(g.nodes.take(g.nodes.len() as int) =~= g.nodes);
        }
        out
    }

    /// The one-time pass that makes shared labels unique: every node whose
    /// label occurs on two or more nodes has its label rewritten to the first
    /// eight fingerprint characters, a dash, and the original label; nodes
    /// with a unique label are untouched, and no node keeps a shared label.
    pub fn disambiguate_names(&mut self)
        requires
            forall|i: int|
                0 <= i < old(self)@.nodes.len() ==> old(self)@.nodes[i].hash.len() >= 8,
        ensures
            final(self)@.nodes.len() == old(self)@.nodes.len(),
            final(self)@.roots == old(self)@.roots,
            forall|i: int|
                0 <= i < old(self)@.nodes.len() ==> same_but_name(
                    old(self)@.nodes[i],
                    final(self)@.nodes[i],
                ),
            forall|i: int|
                0 <= i < old(self)@.nodes.len() && name_count(
                    old(self)@.nodes,
                    old(self)@.nodes[i].name,
                ) > 1 ==> final(self)@.nodes[i].name == disambiguated(old(self)@.nodes[i])
                    && final(self)@.nodes[i].name != old(self)@.nodes[i].name,
            forall|i: int|
                0 <= i < old(self)@.nodes.len() && name_count(
                    old(self)@.nodes,
                    old(self)@.nodes[i].name,
                ) <= 1 ==> final(self)@.nodes[i].name == old(self)@.nodes[i].name,
    {
        let ghost g0 = self@;
        let n = self.paths.len();
        let mut dup: Vec<bool> = Vec::new();
        let mut i: usize = 0;
        while i < n
            invariant
                0 <= i <= n,
                n == self.paths@.len(),
                self@ == g0,
                dup@.len() == i,
                forall|k: int|
                    0 <= k < i ==> dup@[k] == (name_count(g0.nodes, g0.nodes[k].name) > 1),
            decreases n - i,
        {
            let ghost nm = g0.nodes[i as int].name;
            let ghost pred = |nd: NodeView| nd.name == nm;
            let mut cnt: usize = 0;
            let mut j: usize = 0;
            while j < n
                invariant
                    0 <= j <= n,
                    i < n,
                    n == self.paths@.len(),
                    self@ == g0,
                    nm == g0.nodes[i as int].name,
                    pred == (|nd: NodeView| nd.name == nm),
                    cnt <= j,
                    cnt == g0.nodes.take(j as int).filter(pred).len(),
                decreases n - j,
            {
                proof {
                    assert(g0.nodes[j as int] == self.paths@[j as int]@);
                    assert(g0.nodes[i as int] == self.paths@[i as int]@);
                    lemma_filter_push(g0.nodes.take(j as int), g0.nodes[j as int], pred);
                    assert(g0.nodes.take(j as int).push(g0.nodes[j as int]) =~= g0.nodes.take(
                        j as int + 1,
                    ));
                }
                if str_eq(self.paths[j].name.as_str(), self.paths[i].name.as_str()) {
                    cnt += 1;
                }
                j += 1;
            }
            proof {
                assert(g0.nodes.take(n as int) =~= g0.nodes);
            }
            dup.push(cnt > 1);
            i += 1;
        }
        let mut out: Vec<StorePath> = Vec::new();
        i = 0;
        while i < n
            invariant
                0 <= i <= n,
                n == self.paths@.len(),
                self@ == g0,
                dup@.len() == n,
                forall|k: int|
                    0 <= k < n ==> dup@[k] == (name_count(g0.nodes, g0.nodes[k].name) > 1),
                forall|k: int| 0 <= k < g0.nodes.len() ==> g0.nodes[k].hash.len() >= 8,
                out@.len() == i,
                forall|k: int| 0 <= k < i ==> same_but_name(g0.nodes[k], #[trigger] out@[k]@),
                forall|k: int|
                    0 <= k < i && name_count(g0.nodes, g0.nodes[k].name) > 1 ==> #[trigger] out@[k]@.name
                        == disambiguated(g0.nodes[k]),
                forall|k: int|
                    0 <= k < i && name_count(g0.nodes, g0.nodes[k].name) <= 1 ==> #[trigger] out@[k]@.name
                        == g0.nodes[k].name,
            decreases n - i,
        {
            proof {
                assert(g0.nodes[i as int] == self.paths@[i as int]@);
            }
            let p = &self.paths[i];
            if dup[i] {
                let mut nn = p.hash.as_str().substring_char(0, 8).to_owned();
                nn.append("-");
                nn.append(p.name.as_str());
                proof {
                    reveal_strlit("-");
                    assert(("-")@ =~= seq!['-']);
                    assert(g0.nodes[i as int].hash.subrange(0, 8) =~= g0.nodes[i as int].hash.take(
                        8,
                    ));
                    assert(nn@ == disambiguated(g0.nodes[i as int]));
                }
                let node = StorePath {
                    path: p.path.clone(),
                    hash: p.hash.clone(),
                    name: nn,
                    nar_size: p.nar_size,
                    closure_size: p.closure_size,
                    references: clone_string_vec(&p.references),
                    signatures: clone_string_vec(&p.signatures),
                };
                proof {
                    assert(node.references.deep_view() =~= p.references.deep_view());
                    assert(node.signatures.deep_view() =~= p.signatures.deep_view());
                }
                out.push(node);
            } else {
                out.push(clone_node(p));
            }
            i += 1;
        }
        self.paths = out;
        proof {
            assert(self@.nodes.len() == g0.nodes.len());
            assert forall|k: int|
                0 <= k < g0.nodes.len() && name_count(g0.nodes, g0.nodes[k].name)
                    > 1 implies self@.nodes[k].name != g0.nodes[k].name by {
                assert(self@.nodes[k].name == disambiguated(g0.nodes[k]));
                assert(disambiguated(g0.nodes[k]).len() == 9 + g0.nodes[k].name.len());
            }
        }
    }
}

} // verus!
