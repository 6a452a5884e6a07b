//! What is known in memory of entities: the rows, the names they are found by, and
//! how often cells link to them. `refresh` brings all of it up to date at once.
use std::collections::HashMap;
use vstd::prelude::*;

use crate::cell::Cell;
use crate::cell::textbox::bytes_of;
use crate::ids::Uuid;
use crate::persist::{Db, DbModel, Entity, EntityModel};
use crate::persist::entities::{alias_index, alias_rows, backing_cells, entity_times};
use crate::persist::tables::in_order_of;
use crate::query::matching::{kept_id, name_key, normalize_entity_token, parse_kept_entity_url};
use crate::text::{utf8, views};

verus! {

/// What is known of entities.
pub struct EntityCache {
    pub entities: Vec<Entity>,
    /// Names, the entities they find, and their kinds.
    pub alias_index: Vec<(String, Uuid, String)>,
    /// The cells that stand for an entity.
    pub cell_to_entity: HashMap<Uuid, Uuid>,
    /// The entities that a cell stands for, with the name that is compared.
    pub title_fallback: Vec<(Uuid, String)>,
    /// How often cells link to an entity.
    pub mentions: HashMap<Uuid, usize>,
}

/// The map that pairs make; of two with one key, the later counts.
pub open spec fn pair_map(pairs: Seq<(Uuid, Uuid)>, n: int) -> Map<Uuid, Uuid>
    decreases n,
{
    if n <= 0 {
        Map::empty()
    } else {
        pair_map(pairs, n - 1).insert(pairs[n - 1].0, pairs[n - 1].1)
    }
}

/// The entities among the first `n` that a cell stands for, with the name that is
/// compared.
pub open spec fn fallbacks(es: Seq<EntityModel>, n: int) -> Seq<(Uuid, Seq<u8>)>
    decreases n,
{
    if n <= 0 {
        Seq::empty()
    } else if es[n - 1].primary_cell_id is Some {
        fallbacks(es, n - 1).push((es[n - 1].id, name_key(es[n - 1].display_name)))
    } else {
        fallbacks(es, n - 1)
    }
}

/// Entities and names.
pub open spec fn fallback_views(v: Seq<(Uuid, String)>) -> Seq<(Uuid, Seq<u8>)> {
    v.map_values(|t: (Uuid, String)| (t.0, utf8(t.1@)))
}

/// The addresses of all links of the first `n` cells.
pub open spec fn urls_of_cells(cells: Seq<Cell>, n: int) -> Seq<Seq<u8>>
    decreases n,
{
    if n <= 0 {
        Seq::empty()
    } else {
        urls_of_cells(cells, n - 1) + cells[n - 1].model().urls()
    }
}

/// How many of the addresses link to the entity `id`.
pub open spec fn links_to(urls: Seq<Seq<u8>>, id: Uuid) -> nat
    decreases urls.len(),
{
    if urls.len() == 0 {
        0
    } else if kept_id(urls.last()) == Some(id) {
        links_to(urls.drop_last(), id) + 1
    } else {
        links_to(urls.drop_last(), id)
    }
}

/// `counts` says of every entity that the addresses link to how many do.
pub open spec fn counts_links(counts: Map<Uuid, usize>, urls: Seq<Seq<u8>>) -> bool {
    forall|id: Uuid|
        (#[trigger] counts.dom().contains(id) <==> links_to(urls, id) > 0) && (
        counts.dom().contains(id) ==> counts[id] == links_to(urls, id))
}

proof fn lemma_links_to(urls: Seq<Seq<u8>>, id: Uuid)
    ensures
        links_to(urls, id) <= urls.len(),
    decreases urls.len(),
{
    if urls.len() > 0 {
        lemma_links_to(urls.drop_last(), id);
    }
}

/// The name that is compared for an entity: lower case, without white space and
/// underscores, as a query's is.
pub fn normalize_title_for_fallback(s: &str) -> (r: String)
    ensures
        utf8(r@) == name_key(utf8(s@)),
{
    normalize_entity_token(s)
}

impl EntityCache {
    /// Nothing is known.
    pub fn empty() -> (c: EntityCache)
        ensures
            c.entities@.len() == 0,
            c.alias_index@.len() == 0,
            c.cell_to_entity@ == Map::<Uuid, Uuid>::empty(),
            c.title_fallback@.len() == 0,
            c.mentions@ == Map::<Uuid, usize>::empty(),
    {
        EntityCache {
            entities: Vec::new(),
            alias_index: Vec::new(),
            cell_to_entity: HashMap::new(),
            title_fallback: Vec::new(),
            mentions: HashMap::new(),
        }
    }

    /// What the tables, where there are any, and the cells say of entities.
    pub open spec fn tells(&self, db: DbModel) -> bool {
        &&& views(self.entities@) == in_order_of(db.entities, entity_times(db))
        &&& alias_rows(self.alias_index@) == alias_index(db)
        &&& self.cell_to_entity@ == pair_map(
            backing_cells(db.entities, db.entities.len() as int),
            backing_cells(db.entities, db.entities.len() as int).len() as int,
        )
        &&& fallback_views(self.title_fallback@) == fallbacks(
            views(self.entities@),
            self.entities@.len() as int,
        )
    }

    /// What the tables, where there are any, and the cells say of entities.
    pub fn load(db: Option<&Db>, cells: &[Cell]) -> (c: EntityCache)
        requires
            db matches Some(d) ==> d@.wf(),
            urls_of_cells(cells@, cells@.len() as int).len() <= usize::MAX,
        ensures
            match db {
                Some(d) => c.tells(d@),
                None => c.entities@.len() == 0 && c.alias_index@.len() == 0 && c.cell_to_entity@
                    == Map::<Uuid, Uuid>::empty() && c.title_fallback@.len() == 0,
            },
            counts_links(c.mentions@, urls_of_cells(cells@, cells@.len() as int)),
    {
        let mut cache = EntityCache::empty();
        cache.refresh(db, cells);
        cache
    }

    /// Brings all that is known up to date: from the tables, where there are any, and
    /// from the cells.
    pub fn refresh(&mut self, db: Option<&Db>, cells: &[Cell])
        requires
            db matches Some(d) ==> d@.wf(),
            urls_of_cells(cells@, cells@.len() as int).len() <= usize::MAX,
        ensures
            match db {
                Some(d) => final(self).tells(d@),
                None => final(self).entities == old(self).entities && final(self).alias_index
                    == old(self).alias_index && final(self).cell_to_entity == old(
                    self,
                ).cell_to_entity && final(self).title_fallback == old(self).title_fallback,
            },
            counts_links(final(self).mentions@, urls_of_cells(cells@, cells@.len() as int)),
    {
        if let Some(db) = db {
            self.entities = db.all_entities();
            self.alias_index = db.entity_alias_index();
            let pairs = db.cell_to_entity_index();
            self.cell_to_entity = map_of_pairs(&pairs);
            self.title_fallback = fallbacks_of(&self.entities);
        }
        self.refresh_mentions(cells);
    }

    /// Counts anew how often the cells link to entities.
    pub fn refresh_mentions(&mut self, cells: &[Cell])
        requires
            urls_of_cells(cells@, cells@.len() as int).len() <= usize::MAX,
        ensures
            counts_links(final(self).mentions@, urls_of_cells(cells@, cells@.len() as int)),
            final(self).entities == old(self).entities,
            final(self).alias_index == old(self).alias_index,
            final(self).cell_to_entity == old(self).cell_to_entity,
            final(self).title_fallback == old(self).title_fallback,
    {
        broadcast use vstd::std_specs::hash::group_hash_axioms;

        let ghost total = urls_of_cells(cells@, cells@.len() as int);
        let mut counts: HashMap<Uuid, usize> = HashMap::new();
        let mut i: usize = 0;
        while i < cells.len()
            invariant
                i <= cells.len(),
                total == urls_of_cells(cells@, cells@.len() as int),
                total.len() <= usize::MAX,
                counts_links(counts@, urls_of_cells(cells@, i as int)),
            decreases cells.len() - i,
        {
            let ghost before = urls_of_cells(cells@, i as int);
            let urls = cells[i].all_link_urls();
            let ghost us = bytes_of(urls@);
            proof {
                lemma_urls_grow(cells@, i + 1, cells@.len() as int);
                assert(before + us.subrange(0, 0) =~= before);
            }
            let mut j: usize = 0;
            while j < urls.len()
                invariant
                    j <= urls.len(),
                    us == bytes_of(urls@),
                    before.len() + us.len() <= usize::MAX,
                    counts_links(counts@, before + us.subrange(0, j as int)),
                decreases urls.len() - j,
            {
                broadcast use vstd::std_specs::hash::group_hash_axioms;

                let ghost seen = before + us.subrange(0, j as int);
                let ghost next = before + us.subrange(0, j + 1);
                let ghost held = counts@;
                assert(us[j as int] == utf8(urls@[j as int]@));
                proof {
                    assert(next.drop_last() =~= seen);
                    assert(next.last() == us[j as int]);
                }
                if let Some(id) = parse_kept_entity_url(urls[j].as_str()) {
                    let n: usize = match counts.get(&id) {
                        Some(n) => *n,
                        None => 0,
                    };
                    proof {
                        lemma_links_to(seen, id);
                        assert(held.dom().contains(id) <==> links_to(seen, id) > 0);
                        assert(n == links_to(seen, id));
                    }
                    counts.insert(id, n + 1);
                    assert(counts@ == held.insert(id, (n + 1) as usize));
                }
                proof {
                    assert forall|id: Uuid|
                        (#[trigger] counts@.dom().contains(id) <==> links_to(next, id) > 0) && (
                        counts@.dom().contains(id) ==> counts@[id] == links_to(next, id)) by {
                        assert(held.dom().contains(id) <==> links_to(seen, id) > 0);
                    }
                }
                j += 1;
            }
            proof {
                assert(us.subrange(0, j as int) =~= us);
                assert(urls_of_cells(cells@, i + 1) =~= before + us);
            }
            i += 1;
        }
        self.mentions = counts;
    }

    /// How often cells link to the entity.
    pub fn mention_count(&self, entity_id: Uuid) -> (n: usize)
        ensures
            n == (if self.mentions@.dom().contains(entity_id) {
                self.mentions@[entity_id]
            } else {
                0
            }),
    {
        broadcast use vstd::std_specs::hash::group_hash_axioms;

        match self.mentions.get(&entity_id) {
            Some(n) => *n,
            None => 0,
        }
    }
}

impl Default for EntityCache {
    fn default() -> (c: Self)
        ensures
            c.entities@.len() == 0,
            c.alias_index@.len() == 0,
            c.cell_to_entity@ == Map::<Uuid, Uuid>::empty(),
            c.title_fallback@.len() == 0,
            c.mentions@ == Map::<Uuid, usize>::empty(),
    {
        EntityCache::empty()
    }
}

proof fn lemma_urls_grow(cells: Seq<Cell>, i: int, n: int)
    requires
        0 <= i <= n <= cells.len(),
    ensures
        urls_of_cells(cells, i).len() <= urls_of_cells(cells, n).len(),
    decreases n - i,
{
    if i < n {
        lemma_urls_grow(cells, i, n - 1);
    }
}

fn map_of_pairs(pairs: &Vec<(Uuid, Uuid)>) -> (m: HashMap<Uuid, Uuid>)
    ensures
        m@ == pair_map(pairs@, pairs@.len() as int),
{
    broadcast use vstd::std_specs::hash::group_hash_axioms;

    let mut m: HashMap<Uuid, Uuid> = HashMap::new();
    let mut i: usize = 0;
    assert(m@ =~= Map::empty());
    while i < pairs.len()
        invariant
            i <= pairs.len(),
            m@ == pair_map(pairs@, i as int),
        decreases pairs.len() - i,
    {
        broadcast use vstd::std_specs::hash::group_hash_axioms;

        m.insert(pairs[i].0, pairs[i].1);
        i += 1;
    }
    m
}

fn fallbacks_of(es: &Vec<Entity>) -> (v: Vec<(Uuid, String)>)
    ensures
        fallback_views(v@) == fallbacks(views(es@), es@.len() as int),
{
    let ghost all = views(es@);
    let mut out: Vec<(Uuid, String)> = Vec::new();
    let mut i: usize = 0;
    assert(fallback_views(out@) =~= Seq::empty());
    while i < es.len()
        invariant
            i <= es.len(),
            all == views(es@),
            fallback_views(out@) == fallbacks(all, i as int),
        decreases es.len() - i,
    {
        let e = &es[i];
        let ghost held = out@;
        assert(all[i as int] == e@);
        if e.primary_cell_id.is_some() {
            out.push((e.id, normalize_title_for_fallback(e.display_name.as_str())));
            assert(fallback_views(out@) =~= fallback_views(held).push(
                (e@.id, name_key(e@.display_name)),
            ));
        }
        i += 1;
    }
    out
}

/// Only entities that a cell stands for are found by their titles.
pub proof fn fallbacks_are_backed_by_cells(es: Seq<EntityModel>, n: int, i: int)
    requires
        0 <= n <= es.len(),
        0 <= i < fallbacks(es, n).len(),
    ensures
        exists|k: int|
            0 <= k < n && (#[trigger] es[k]).id == fallbacks(es, n)[i].0
                && es[k].primary_cell_id is Some && fallbacks(es, n)[i].1 == name_key(
                es[k].display_name,
            ),
    decreases n,
{
    if n > 0 {
        let before = fallbacks(es, n - 1);
        if i < before.len() {
            fallbacks_are_backed_by_cells(es, n - 1, i);
        } else {
            assert(es[n - 1].primary_cell_id is Some);
        }
    }
}

/// Mentions are counted one for one: an address more that leads to an entity counts one more for
/// it, and for no other; other addresses count nothing, and the order makes no difference.
pub proof fn mentions_are_counted(a: Seq<Seq<u8>>, url: Seq<u8>, c: Seq<Seq<u8>>, id: Uuid)
    ensures
        links_to(a + seq![url] + c, id) == links_to(a + c, id) + (if kept_id(url) == Some(id) {
            1nat
        } else {
            0
        }),
        links_to(Seq::empty(), id) == 0,
    decreases c.len(),
{
    let with = a + seq![url] + c;
    let without = a + c;
    if c.len() == 0 {
        assert(with.drop_last() =~= a);
        assert(without =~= a);
    } else {
        let less = c.drop_last();
        mentions_are_counted(a, url, less, id);
        assert(with.drop_last() =~= a + seq![url] + less);
        assert(without.drop_last() =~= a + less);
        assert(with.last() == c.last());
        assert(without.last() == c.last());
    }
}

/// Every entity that a cell stands for is found by its title.
pub proof fn entities_with_cells_have_a_fallback(es: Seq<EntityModel>, n: int, k: int)
    requires
        0 <= k < n <= es.len(),
        es[k].primary_cell_id is Some,
    ensures
        fallbacks(es, n).contains((es[k].id, name_key(es[k].display_name))),
    decreases n,
{
    let all = fallbacks(es, n);
    let before = fallbacks(es, n - 1);
    let own = (es[k].id, name_key(es[k].display_name));
    if k == n - 1 {
        assert(all[all.len() - 1] == own);
    } else {
        entities_with_cells_have_a_fallback(es, n - 1, k);
        let i = choose|i: int| 0 <= i < before.len() && before[i] == own;
        assert(all[i] == own);
    }
}

} // verus!
