//! The register catalog: descriptors keyed by case-folded name, kept in
//! ascending key order so that prefix queries return candidates in
//! lexicographic order. Built once from a statement stream, read thereafter.

use vstd::prelude::*;

use crate::ast::Statement;
use crate::text::{
    fold_lower, lemma_lex_total, lemma_lex_trans, lex_lt, lower_of, str_is_prefix, str_lt,
};
use crate::{accepted, normal_model, normalize, RegModel, RegisterDesc};

verus! {

/// One catalog slot: the case-folded key and the descriptor it names.
pub struct CatalogEntry {
    pub key: String,
    pub desc: RegisterDesc,
}

impl CatalogEntry {
    /// The slot's key is the case-folded form of the descriptor's name.
    pub open spec fn wf(self) -> bool {
        self.key@ == lower_of(self.desc.name@)
    }
}

/// The catalog: entries in strictly ascending key order, keys unique.
pub struct Catalog {
    pub entries: Vec<CatalogEntry>,
}

/// The entries of `s` whose key starts with `p`, in their stored order.
pub open spec fn filter_prefix(s: Seq<CatalogEntry>, p: Seq<char>) -> Seq<CatalogEntry> {
    s.filter(|e: CatalogEntry| p.is_prefix_of(e.key@))
}

impl Catalog {
    /// Every slot is well formed and the keys ascend strictly.
    pub open spec fn wf(self) -> bool {
        &&& forall|i: int| 0 <= i < self.entries@.len() ==> (#[trigger] self.entries@[i]).wf()
        &&& forall|i: int, j: int|
            0 <= i < j < self.entries@.len() ==> lex_lt(
                (#[trigger] self.entries@[i]).key@,
                (#[trigger] self.entries@[j]).key@,
            )
    }

    /// True when some slot carries the key `k`.
    pub open spec fn contains_key(self, k: Seq<char>) -> bool {
        exists|i: int| 0 <= i < self.entries@.len() && (#[trigger] self.entries@[i]).key@ == k
    }

    /// The descriptor stored under the key `k`.
    pub open spec fn spec_get(self, k: Seq<char>) -> RegModel {
        let i = choose|i: int|
            0 <= i < self.entries@.len() && (#[trigger] self.entries@[i]).key@ == k;
        self.entries@[i].desc@
    }

    /// The catalog as a map from case-folded name to descriptor.
    pub open spec fn as_map(self) -> Map<Seq<char>, RegModel> {
        Map::new(|k: Seq<char>| self.contains_key(k), |k: Seq<char>| self.spec_get(k))
    }

    /// The descriptors whose key starts with `p`, in ascending key order.
    pub open spec fn prefix_matches(self, p: Seq<char>) -> Seq<RegModel> {
        filter_prefix(self.entries@, p).map_values(|e: CatalogEntry| e.desc@)
    }

    /// In a well-formed catalog no two slots share a key.
    pub proof fn lemma_keys_unique(self, i: int, j: int)
        requires
            self.wf(),
            0 <= i < self.entries@.len(),
            0 <= j < self.entries@.len(),
            i != j,
        ensures
            self.entries@[i].key@ != self.entries@[j].key@,
    {
        if i < j {
            lemma_lex_total(self.entries@[i].key@, self.entries@[j].key@);
        } else {
            lemma_lex_total(self.entries@[j].key@, self.entries@[i].key@);
        }
    }

    /// In a well-formed catalog every key occurs at one slot only.
    pub proof fn lemma_all_keys_unique(self)
        requires
            self.wf(),
        ensures
            forall|u: int, v: int|
                0 <= u < self.entries@.len() && 0 <= v < self.entries@.len() && u != v
                    ==> (#[trigger] self.entries@[u]).key@ != (#[trigger] self.entries@[v]).key@,
    {
        assert forall|u: int, v: int|
            0 <= u < self.entries@.len() && 0 <= v < self.entries@.len() && u != v implies (
        #[trigger] self.entries@[u]).key@ != (#[trigger] self.entries@[v]).key@ by {
            self.lemma_keys_unique(u, v);
        }
    }

    /// The slot at index `t` is what the key of that slot retrieves.
    pub proof fn lemma_get_at(self, t: int)
        requires
            self.wf(),
            0 <= t < self.entries@.len(),
        ensures
            self.contains_key(self.entries@[t].key@),
            self.spec_get(self.entries@[t].key@) == self.entries@[t].desc@,
    {
        assert(self.contains_key(self.entries@[t].key@));
        self.lemma_all_keys_unique();
    }

    /// An empty catalog.
    pub fn new() -> (r: Catalog)
        ensures
            r.wf(),
            r.as_map() == Map::<Seq<char>, RegModel>::empty(),
            r.entries@.len() == 0,
    {
        let r = Catalog { entries: Vec::new() };
        proof {
            assert(r.as_map() =~= Map::<Seq<char>, RegModel>::empty());
        }
        r
    }

    /// Stores a descriptor under its case-folded name; an entry already
    /// carrying that key is overwritten.
    pub fn insert(&mut self, desc: RegisterDesc)
        requires
            old(self).wf(),
        ensures
            final(self).wf(),
            final(self).as_map() == old(self).as_map().insert(lower_of(desc.name@), desc@),
    {
        let key = fold_lower(self.name_of(&desc));
        let ghost k = key@;
        let ghost olde = self.entries@;
        let n = self.entries.len();
        let i = lower_bound(&self.entries, &key);
        let replace = i < n && self.entries[i].key == key;
        proof {
            if i < n {
                assert(!lex_lt(olde[i as int].key@, k));
                lemma_lex_total(olde[i as int].key@, k);
                if !replace {
                    assert(olde[i as int].key@ != k);
                    assert(lex_lt(k, olde[i as int].key@));
                }
            }
        }
        if replace {
            self.entries.remove(i);
        }
        let ghost mid = self.entries@;
        self.entries.insert(i, CatalogEntry { key, desc });
        proof {
            let newe = self.entries@;
            let olen = olde.len() as int;
            if replace {
                assert(olde[i as int].key@ == k);
                assert(mid == olde.remove(i as int));
                assert(newe == mid.insert(i as int, CatalogEntry { key, desc }));
                assert(newe.len() == olen);
                assert(forall|t: int| 0 <= t < olen && t != i ==> newe[t] == olde[t]);
                assert(newe[i as int].key@ == k && newe[i as int].desc == desc);
            } else {
                assert(newe == olde.insert(i as int, CatalogEntry { key, desc }));
                assert(newe.len() == olen + 1);
                assert(forall|t: int| 0 <= t < i ==> newe[t] == olde[t]);
                assert(forall|t: int| i < t < olen + 1 ==> newe[t] == olde[t - 1]);
                assert(newe[i as int].key@ == k && newe[i as int].desc == desc);
            }
            assert forall|a: int, b: int| 0 <= a < b < newe.len() implies lex_lt(
                (#[trigger] newe[a]).key@,
                (#[trigger] newe[b]).key@,
            ) by {
                let ka = newe[a].key@;
                let kb = newe[b].key@;
                if replace {
                    if a == i {
                        assert(lex_lt(k, olde[b].key@)) by {
                            assert(lex_lt(olde[i as int].key@, olde[b].key@));
                            if lex_lt(k, olde[i as int].key@) {
                                lemma_lex_trans(k, olde[i as int].key@, olde[b].key@);
                            } else {
                                assert(k == olde[i as int].key@);
                            }
                        }
                    } else if b == i {
                        assert(lex_lt(olde[a].key@, k));
                    }
                } else {
                    if b == i {
                        assert(lex_lt(olde[a].key@, k));
                    } else if a == i {
                        let kb0 = olde[b - 1].key@;
                        assert(kb == kb0);
                        if b - 1 == i {
                            assert(lex_lt(k, kb0));
                        } else {
                            assert(lex_lt(olde[i as int].key@, kb0));
                            lemma_lex_trans(k, olde[i as int].key@, kb0);
                        }
                    } else if a < i && b > i {
                        assert(ka == olde[a].key@ && kb == olde[b - 1].key@);
                        if b - 1 == a {
                            assert(lex_lt(ka, k));
                            assert(false);
                        } else {
                            assert(lex_lt(olde[a].key@, olde[b - 1].key@));
                        }
                    }
                }
            }
            assert(self.wf());
            assert forall|q: Seq<char>| true implies #[trigger] self.as_map().dom().contains(q)
                == old(self).as_map().insert(k, desc@).dom().contains(q) by {
                if q == k {
                    assert(self.contains_key(q)) by {
                        assert(newe[i as int].key@ == q);
                    }
                } else {
                    if old(self).contains_key(q) {
                        let t = choose|t: int| 0 <= t < olen && (#[trigger] olde[t]).key@ == q;
                        if replace {
                            assert(newe[t].key@ == q);
                        } else {
                            if t < i {
                                assert(newe[t].key@ == q);
                            } else {
                                assert(newe[t + 1].key@ == q);
                            }
                        }
                        assert(self.contains_key(q));
                    }
                    if self.contains_key(q) {
                        let t = choose|t: int|
                            0 <= t < newe.len() && (#[trigger] newe[t]).key@ == q;
                        assert(t != i);
                        if replace {
                            assert(olde[t].key@ == q);
                        } else {
                            if t < i {
                                assert(olde[t].key@ == q);
                            } else {
                                assert(olde[t - 1].key@ == q);
                            }
                        }
                        assert(old(self).contains_key(q));
                    }
                }
            }
            assert forall|q: Seq<char>| #[trigger] self.as_map().dom().contains(q) implies
                self.as_map()[q] == old(self).as_map().insert(k, desc@)[q] by {
                let t = choose|t: int| 0 <= t < newe.len() && (#[trigger] newe[t]).key@ == q;
                assert forall|u: int|
                    0 <= u < newe.len() && (#[trigger] newe[u]).key@ == q implies newe[u].desc@
                    == newe[t].desc@ by {
                    if u != t {
                        self.lemma_keys_unique(u, t);
                    }
                }
                assert(self.spec_get(q) == newe[t].desc@);
                if q == k {
                    assert(newe[i as int].key@ == q);
                    assert(self.spec_get(q) == desc@);
                } else {
                    assert(t != i);
                    let u = if replace || t < i {
                        t
                    } else {
                        t - 1
                    };
                    assert(olde[u].key@ == q && olde[u].desc == newe[t].desc);
                    assert(old(self).contains_key(q));
                    let w = choose|w: int| 0 <= w < olen && (#[trigger] olde[w]).key@ == q;
                    if w != u {
                        old(self).lemma_keys_unique(w, u);
                    }
                    assert(old(self).spec_get(q) == newe[t].desc@);
                }
            }
            assert(self.as_map() =~= old(self).as_map().insert(k, desc@));
        }
    }

    /// Reads the descriptor's name; kept separate so the borrow of the
    /// descriptor ends before the catalog is changed.
    fn name_of<'a>(&self, desc: &'a RegisterDesc) -> (r: &'a str)
        ensures
            r@ == desc.name@,
    {
        desc.name.as_str()
    }
}

/// The index of the first entry whose key is not below `key`: where an
/// entry with that key would stand.
fn lower_bound(entries: &Vec<CatalogEntry>, key: &String) -> (r: usize)
    ensures
        0 <= r <= entries@.len(),
        forall|t: int| 0 <= t < r ==> lex_lt((#[trigger] entries@[t]).key@, key@),
        r < entries@.len() ==> !lex_lt(entries@[r as int].key@, key@),
{
    let n = entries.len();
    let mut i: usize = 0;
    loop
        invariant
            n == entries@.len(),
            0 <= i <= n,
            forall|t: int| 0 <= t < i ==> lex_lt((#[trigger] entries@[t]).key@, key@),
        decreases n - i,
    {
        if i >= n {
            return i;
        }
        if !str_lt(entries[i].key.as_str(), key.as_str()) {
            return i;
        }
        i = i + 1;
    }
}

impl Catalog {
    /// Looks a register up by name, case-insensitively.
    pub fn lookup_exact(&self, name: &str) -> (r: Option<&RegisterDesc>)
        requires
            self.wf(),
        ensures
            (match r {
                Some(d) => self.contains_key(lower_of(name@)) && d@ == self.spec_get(
                    lower_of(name@),
                ),
                None => !self.contains_key(lower_of(name@)),
            }),
    {
        let key = fold_lower(name);
        let n = self.entries.len();
        let mut j: usize = 0;
        while j < n
            invariant
                self.wf(),
                key@ == lower_of(name@),
                n == self.entries@.len(),
                0 <= j <= n,
                forall|t: int| 0 <= t < j ==> (#[trigger] self.entries@[t]).key@ != key@,
            decreases n - j,
        {
            if self.entries[j].key == key {
                proof {
                    self.lemma_get_at(j as int);
                }
                return Some(&self.entries[j].desc);
            }
            j = j + 1;
        }
        None
    }

    /// Returns copies of all registers whose case-folded name starts with
    /// `prefix`, in ascending key order.
    pub fn query_prefix(&self, prefix: &str) -> (r: Vec<RegisterDesc>)
        requires
            self.wf(),
        ensures
            r@.map_values(|d: RegisterDesc| d@) == self.prefix_matches(prefix@),
    {
        let ghost p = prefix@;
        let n = self.entries.len();
        let mut out: Vec<RegisterDesc> = Vec::new();
        proof {
            reveal(Seq::filter);
            assert(self.entries@.take(0) =~= Seq::<CatalogEntry>::empty());
            assert(out@.map_values(|d: RegisterDesc| d@) =~= filter_prefix(
                self.entries@.take(0),
                p,
            ).map_values(|e: CatalogEntry| e.desc@));
        }
        let mut j: usize = 0;
        while j < n
            invariant
                self.wf(),
                p == prefix@,
                n == self.entries@.len(),
                0 <= j <= n,
                out@.map_values(|d: RegisterDesc| d@) == filter_prefix(
                    self.entries@.take(j as int),
                    p,
                ).map_values(|e: CatalogEntry| e.desc@),
            decreases n - j,
        {
            let ghost t = self.entries@.take(j as int + 1);
            let ghost out0 = out@;
            let ghost fprev = filter_prefix(self.entries@.take(j as int), p);
            proof {
                assert(t.drop_last() =~= self.entries@.take(j as int));
                assert(t.last() == self.entries@[j as int]);
            }
            if str_is_prefix(prefix, self.entries[j].key.as_str()) {
                out.push(self.entries[j].desc.duplicate());
                proof {
                    reveal(Seq::filter);
                    assert(filter_prefix(t, p) == fprev.push(t.last()));
                    assert(out@ == out0.push(out@.last()));
                    assert(out@.last()@ == t.last().desc@);
                    let lm = out@.map_values(|d: RegisterDesc| d@);
                    let rm = filter_prefix(t, p).map_values(|e: CatalogEntry| e.desc@);
                    assert(out0.map_values(|d: RegisterDesc| d@).len() == out0.len());
                    assert(fprev.map_values(|e: CatalogEntry| e.desc@).len() == fprev.len());
                    assert(out0.len() == fprev.len());
                    assert(lm.len() == out0.len() + 1);
                    assert(rm.len() == fprev.len() + 1);
                    assert forall|x: int| 0 <= x < lm.len() implies #[trigger] lm[x] == rm[x] by {
                        if x < out0.len() {
                            assert(out@[x] == out0[x]);
                            assert(filter_prefix(t, p)[x] == fprev[x]);
                            assert(out0.map_values(|d: RegisterDesc| d@)[x] == fprev.map_values(
                                |e: CatalogEntry| e.desc@,
                            )[x]);
                            assert(lm[x] == out0[x]@);
                            assert(rm[x] == fprev[x].desc@);
                        } else {
                            assert(x == out0.len());
                            assert(out@[x] == out@.last());
                            assert(filter_prefix(t, p)[x] == t.last());
                            assert(lm[x] == out@.last()@);
                            assert(rm[x] == t.last().desc@);
                        }
                    }
                    assert(lm =~= rm);
                }
            } else {
                proof {
                    reveal(Seq::filter);
                    assert(filter_prefix(t, p) == fprev);
                    assert(out@.map_values(|d: RegisterDesc| d@) == filter_prefix(
                        t,
                        p,
                    ).map_values(|e: CatalogEntry| e.desc@));
                }
            }
            j = j + 1;
        }
        proof {
            assert(self.entries@.take(n as int) =~= self.entries@);
        }
        out
    }
}

/// The catalog contents after a statement stream: each accepted register
/// stored under its case-folded name, the last writer winning.
pub open spec fn build_map(stmts: Seq<Statement>) -> Map<Seq<char>, RegModel>
    decreases stmts.len(),
{
    if stmts.len() == 0 {
        Map::empty()
    } else {
        let m = build_map(stmts.drop_last());
        match stmts.last() {
            Statement::Register(reg) => if accepted(reg@) {
                m.insert(lower_of(reg@.name), normal_model(reg@))
            } else {
                m
            },
            Statement::Comment => m,
        }
    }
}

/// How many registers of the stream fail validation: each rejected register
/// counts exactly once.
pub open spec fn skip_count(stmts: Seq<Statement>) -> int
    decreases stmts.len(),
{
    if stmts.len() == 0 {
        0
    } else {
        skip_count(stmts.drop_last()) + (match stmts.last() {
            Statement::Register(reg) => if accepted(reg@) {
                0int
            } else {
                1int
            },
            Statement::Comment => 0int,
        })
    }
}

/// Drives the normalizer over every register statement, ignoring comments:
/// builds the catalog and counts the registers that validation rejected.
pub fn build_catalog(statements: &Vec<Statement>) -> (r: (Catalog, usize))
    requires
        forall|i: int|
            0 <= i < statements@.len() ==> ((#[trigger] statements@[i]) matches
            Statement::Register(reg) ==> reg.wf()),
    ensures
        r.0.wf(),
        r.0.as_map() == build_map(statements@),
        r.1 == skip_count(statements@),
{
    let mut cat = Catalog::new();
    let mut skipped: usize = 0;
    let n = statements.len();
    proof {
        assert(statements@.take(0) =~= Seq::<Statement>::empty());
    }
    let mut i: usize = 0;
    while i < n
        invariant
            forall|t: int|
                0 <= t < statements@.len() ==> ((#[trigger] statements@[t]) matches
                Statement::Register(reg) ==> reg.wf()),
            n == statements@.len(),
            0 <= i <= n,
            cat.wf(),
            cat.as_map() == build_map(statements@.take(i as int)),
            skipped == skip_count(statements@.take(i as int)),
            skipped <= i,
        decreases n - i,
    {
        let ghost t = statements@.take(i as int + 1);
        proof {
            assert(t.drop_last() =~= statements@.take(i as int));
            assert(t.last() == statements@[i as int]);
        }
        match &statements[i] {
            Statement::Register(reg) => {
                match normalize(reg) {
                    Ok(d) => {
                        proof {
                            assert(d@ == normal_model(reg@));
                        }
                        cat.insert(d);
                    },
                    Err(_) => {
                        skipped = skipped + 1;
                    },
                }
            },
            Statement::Comment => {},
        }
        i = i + 1;
    }
    proof {
        assert(statements@.take(n as int) =~= statements@);
    }
    (cat, skipped)
}

/// When an exact lookup succeeds and a prefix query for the same name finds
/// exactly one candidate, both name the same descriptor.
pub proof fn lemma_lookup_agreement(c: Catalog, name: Seq<char>)
    requires
        c.wf(),
        c.contains_key(lower_of(name)),
        c.prefix_matches(lower_of(name)).len() == 1,
    ensures
        c.prefix_matches(lower_of(name))[0] == c.spec_get(lower_of(name)),
{
    let k = lower_of(name);
    let i = choose|i: int| 0 <= i < c.entries@.len() && (#[trigger] c.entries@[i]).key@ == k;
    assert(k.is_prefix_of(c.entries@[i].key@)) by {
        assert(k =~= c.entries@[i].key@.subrange(0, k.len() as int));
    }
    let fp = filter_prefix(c.entries@, k);
    c.entries@.lemma_filter_contains(|e: CatalogEntry| k.is_prefix_of(e.key@), i);
    assert(fp.contains(c.entries@[i]));
    assert(fp.len() == 1);
    let w = choose|w: int| 0 <= w < fp.len() && fp[w] == c.entries@[i];
    assert(w == 0);
    assert(fp[0] == c.entries@[i]);
    assert(c.prefix_matches(k)[0] == c.entries@[i].desc@);
    c.lemma_get_at(i);
    assert(c.spec_get(k) == c.entries@[i].desc@);
}

} // verus!
