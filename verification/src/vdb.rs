//! A database: an index and the version of it that was written last.
//!
//! Every write makes a new version in a file of its own, so that no written file is ever changed.

use crate::chunked_storage;
use crate::clustering;
use crate::decimal;
use crate::index_ivf_rq::{IndexModel, IvfRabitqIndex, Payload, RabitqCode};
use crate::index_ivf_rq;
use crate::mmap_index::{MappedModel, MmapIndex};
use crate::mmap_index;
use crate::rabitq;
use crate::search::{QueryCode, SearchOptions};
use crate::search;
use crate::text;
use vstd::prelude::*;

verus! {

/// Which version of the index is the latest, and the file that holds it.
#[derive(Debug)]
pub struct Manifest {
    pub version: u64,
    pub index_file: String,
}

/// The name of the file of a version.
pub open spec fn index_file_name(version: u64) -> Seq<char> {
    "index-"@ + decimal::digits(version as nat) + ".vdb"@
}

/// The name of the file of a version.
pub fn index_file_of(version: u64) -> (name: String)
    ensures
        name@ == index_file_name(version),
{
    let mut name: String = "index-".to_owned();
    decimal::push_decimal(&mut name, version);
    decimal::push_text(&mut name, ".vdb");
    name
}

/// Every version has a file of its own.
pub proof fn versions_have_own_files(a: u64, b: u64)
    requires
        index_file_name(a) == index_file_name(b),
    ensures
        a == b,
{
    let front = "index-"@;
    let back = ".vdb"@;
    let (x, y) = (decimal::digits(a as nat), decimal::digits(b as nat));
    let (s, t) = (index_file_name(a), index_file_name(b));
    assert(s.len() == front.len() + x.len() + back.len());
    assert(t.len() == front.len() + y.len() + back.len());
    assert(x =~= s.subrange(front.len() as int, (front.len() + x.len()) as int));
    assert(y =~= t.subrange(front.len() as int, (front.len() + y.len()) as int));
    decimal::digits_injective(a as nat, b as nat);
}

impl Manifest {
    /// The manifest is that of a version.
    pub open spec fn names(&self, version: int) -> bool {
        self.version == version && self.index_file@ == index_file_name(self.version)
    }

    /// The manifest of a version.
    pub fn of_version(version: u64) -> (manifest: Self)
        ensures
            manifest.names(version as int),
    {
        Manifest { version, index_file: index_file_of(version) }
    }
}

/// A text begins with another.
pub open spec fn begins_with(text: Seq<char>, front: Seq<char>) -> bool {
    front.len() <= text.len() && text.take(front.len() as int) == front
}

/// A text ends with another.
pub open spec fn ends_with(text: Seq<char>, back: Seq<char>) -> bool {
    back.len() <= text.len() && text.skip(text.len() - back.len()) == back
}

/// A name is that of an index file.
pub open spec fn is_index_file(name: Seq<char>) -> bool {
    begins_with(name, "index-"@) && ends_with(name, ".vdb"@)
}

/// A file is one of a version that is no longer the latest.
pub open spec fn is_stale(name: Seq<char>, latest: Seq<char>) -> bool {
    is_index_file(name) && name != latest
}

/// Whether a run of characters stands at a place.
fn stands_at(chars: &Vec<char>, at: usize, part: &Vec<char>) -> (r: bool)
    requires
        at + part@.len() <= chars@.len(),
    ensures
        r == (chars@.subrange(at as int, at + part@.len()) == part@),
{
    let mut i: usize = 0;
    let len: usize = chars.len();
    while i < part.len()
        invariant
            i <= part@.len(),
            len == chars@.len(),
            at + part@.len() <= len,
            forall|j: int| 0 <= j < i ==> chars@[at + j] == part@[j],
        decreases part@.len() - i,
    {
        if chars[at + i] != part[i] {
            assert(chars@.subrange(at as int, at + part@.len())[i as int] != part@[i as int]);
            return false;
        }
        i += 1;
    }
    assert(chars@.subrange(at as int, at + part@.len()) =~= part@);
    true
}

/// Whether a file is one of a version that is no longer the latest.
pub fn stale_file(name: &str, manifest: &Manifest) -> (r: bool)
    ensures
        r == is_stale(name@, manifest.index_file@),
{
    let chars = text::chars_of(name);
    let front = text::chars_of("index-");
    let back = text::chars_of(".vdb");
    let n: usize = chars.len();
    assert(chars@.len() == n);
    if n < front.len() || n < back.len() {
        return false;
    }
    proof {
        assert(chars@.subrange(0, front@.len() as int) =~= name@.take(front@.len() as int));
        assert(chars@.subrange(n - back@.len(), n - back@.len() + back@.len()) =~= name@.skip(
            n - back@.len(),
        ));
    }
    stands_at(&chars, 0, &front) && stands_at(&chars, n - back.len(), &back) && !text::same_text(
        name,
        manifest.index_file.as_str(),
    )
}

/// The files of a directory that are those of versions that are no longer the latest.
pub open spec fn stale_places(names: Seq<String>, latest: Seq<char>, n: int) -> Seq<usize>
    decreases n,
{
    if n <= 0 {
        Seq::empty()
    } else if is_stale(names[n - 1]@, latest) {
        stale_places(names, latest, n - 1).push((n - 1) as usize)
    } else {
        stale_places(names, latest, n - 1)
    }
}

/// Compacting takes away every index file but the latest, and nothing else.
pub proof fn compacting_keeps_the_latest(names: Seq<String>, latest: Seq<char>, i: int)
    requires
        0 <= i < names.len() <= usize::MAX,
    ensures
        stale_places(names, latest, names.len() as int).contains(i as usize) <==> is_index_file(
            names[i]@,
        ) && names[i]@ != latest,
{
    stale_places_up_to(names, latest, names.len() as int, i);
}

/// What is left of a directory: every name is one whose place was not to be taken away.
pub open spec fn left_over(names: Seq<String>, gone: Seq<usize>, left: Seq<String>) -> bool {
    forall|j: int| 0 <= j < left.len() ==> was_kept(names, gone, #[trigger] left[j]@)
}

/// A name stands at a place that was not to be taken away.
pub open spec fn was_kept(names: Seq<String>, gone: Seq<usize>, name: Seq<char>) -> bool {
    exists|i: int|
        0 <= i < names.len() && !gone.contains(i as usize) && (#[trigger] names[i])@ == name
}

/// After compacting there is nothing to compact: a second run over what the first one left takes
/// nothing away.
pub proof fn compacting_again_finds_nothing(
    names: Seq<String>,
    latest: Seq<char>,
    left: Seq<String>,
)
    requires
        names.len() <= usize::MAX,
        left_over(names, stale_places(names, latest, names.len() as int), left),
    ensures
        stale_places(left, latest, left.len() as int) == Seq::<usize>::empty(),
{
    assert forall|j: int| 0 <= j < left.len() implies !is_stale(#[trigger] left[j]@, latest) by {
        let gone = stale_places(names, latest, names.len() as int);
        assert(was_kept(names, gone, left[j]@));
        let i = choose|i: int|
            0 <= i < names.len() && !gone.contains(i as usize) && (#[trigger] names[i])@
                == left[j]@;
        stale_places_up_to(names, latest, names.len() as int, i);
    }
    nothing_is_stale(left, latest, left.len() as int);
}

proof fn nothing_is_stale(names: Seq<String>, latest: Seq<char>, n: int)
    requires
        0 <= n <= names.len(),
        forall|j: int| 0 <= j < names.len() ==> !is_stale(#[trigger] names[j]@, latest),
    ensures
        stale_places(names, latest, n) == Seq::<usize>::empty(),
    decreases n,
{
    if n > 0 {
        nothing_is_stale(names, latest, n - 1);
        assert(!is_stale(names[n - 1]@, latest));
    }
}

/// Which of the first `n` files are stale.
proof fn stale_places_up_to(names: Seq<String>, latest: Seq<char>, n: int, i: int)
    requires
        0 <= i < names.len() <= usize::MAX,
        0 <= n <= names.len(),
    ensures
        stale_places(names, latest, n).contains(i as usize) <==> i < n && is_stale(names[i]@, latest),
    decreases n,
{
    if n > 0 {
        stale_places_up_to(names, latest, n - 1, i);
        let before = stale_places(names, latest, n - 1);
        let after = stale_places(names, latest, n);
        if is_stale(names[n - 1]@, latest) {
            assert(after[before.len() as int] == (n - 1) as usize);
            if before.contains(i as usize) {
                let k = before.index_of(i as usize);
                assert(after[k] == i as usize);
            }
            if after.contains(i as usize) && i != n - 1 {
                let k = after.index_of(i as usize);
                assert(k < before.len());
                assert(before[k] == i as usize);
            }
        }
    }
}

/// What is known of a database as a whole.
#[derive(Debug, Clone, Copy)]
pub struct Stats {
    pub version: u64,
    pub num_vectors: usize,
    pub num_partitions: usize,
}

/// A database in memory. Its files are written by the caller, with the next manifest, before the
/// version is committed.
pub struct Database {
    index: IvfRabitqIndex,
    manifest: Manifest,
}

/// A vector with its payload was added.
pub open spec fn one_added<
    D: Fn(&Vec<u32>, &Vec<u32>) -> u32,
    R: Fn(&Vec<u32>, &Vec<u32>) -> Vec<u32>,
    C: Fn(&Vec<u32>, u32) -> (u32, u32),
>(
    dist: D,
    rotate: R,
    corrections: C,
    before: IndexModel,
    vector: Vec<u32>,
    payload: Payload,
    after: IndexModel,
) -> bool {
    exists|pid: usize, code: rabitq::Code| #[trigger]
        index_ivf_rq::insertion(dist, rotate, corrections, before, vector, pid, code) && after
            == before.added(pid, vector, code, payload)
}

/// Vectors with their payloads were added one after the other.
pub open spec fn all_added<
    D: Fn(&Vec<u32>, &Vec<u32>) -> u32,
    R: Fn(&Vec<u32>, &Vec<u32>) -> Vec<u32>,
    C: Fn(&Vec<u32>, u32) -> (u32, u32),
>(
    dist: D,
    rotate: R,
    corrections: C,
    vectors: Seq<Vec<u32>>,
    payloads: Seq<Payload>,
    models: Seq<IndexModel>,
) -> bool {
    &&& models.len() == vectors.len() + 1
    &&& forall|i: int|
        0 <= i < vectors.len() ==> one_added(
            dist,
            rotate,
            corrections,
            models[i],
            #[trigger] vectors[i],
            payloads[i],
            models[i + 1],
        )
}

/// The items from the last to the first.
fn reversed<T>(items: Vec<T>) -> (back: Vec<T>)
    ensures
        back@ == items@.reverse(),
{
    let mut items = items;
    let ghost all = items@;
    let mut back: Vec<T> = Vec::with_capacity(items.len());
    while items.len() > 0
        invariant
            items@.len() <= all.len(),
            items@ == all.take(items@.len() as int),
            back@ == all.skip(items@.len() as int).reverse(),
        decreases items@.len(),
    {
        let ghost n = items@.len() as int;
        match items.pop() {
            Some(item) => {
                back.push(item);
                assert(items@ =~= all.take(n - 1));
                assert(back@ =~= all.skip(n - 1).reverse());
            },
            None => {
                assert(false);
            },
        }
    }
    assert(all.skip(0) =~= all);
    back
}

impl Database {
    /// The model of the index.
    pub closed spec fn model(&self) -> IndexModel {
        self.index@
    }

    /// The version that was written last.
    pub closed spec fn version(&self) -> u64 {
        self.manifest.version
    }

    /// The name of the file that was written last.
    pub closed spec fn file(&self) -> Seq<char> {
        self.manifest.index_file@
    }

    /// The index is well formed, its ids are in sequence, and it has partitions.
    pub closed spec fn wf(&self) -> bool {
        &&& self.index.wf()
        &&& self.index@.numbered()
        &&& self.index@.centroids.len() > 0
    }

    /// A database without vectors, at version 0.
    pub fn create(dim: usize, rotation: Vec<u32>) -> (db: Self)
        requires
            dim % 64 == 0,
            rotation@.len() == dim * dim,
        ensures
            db.wf(),
            index_ivf_rq::is_empty_model(db.model(), dim, rotation),
            db.version() == 0,
            db.file() == index_file_name(0),
    {
        Database { index: IvfRabitqIndex::new(dim, rotation), manifest: Manifest::of_version(0) }
    }

    /// The database of an index that was loaded from the file that a manifest names.
    pub fn open(manifest: Manifest, index: IvfRabitqIndex) -> (db: Self)
        ensures
            db.model() == index@,
            db.version() == manifest.version,
            db.file() == manifest.index_file@,
            index.wf() && index@.numbered() && index@.centroids.len() > 0 ==> db.wf(),
    {
        Database { index, manifest }
    }

    /// The index.
    pub fn index(&self) -> (index: &IvfRabitqIndex)
        ensures
            index@ == self.model(),
            self.wf() ==> index.wf(),
    {
        &self.index
    }

    /// The manifest of the version that was written last.
    pub fn manifest(&self) -> (manifest: &Manifest)
        ensures
            manifest.version == self.version(),
            manifest.index_file@ == self.file(),
    {
        &self.manifest
    }

    /// Adds a vector without payload, and gives its id.
    pub fn insert<
        D: Fn(&Vec<u32>, &Vec<u32>) -> u32,
        R: Fn(&Vec<u32>, &Vec<u32>) -> Vec<u32>,
        C: Fn(&Vec<u32>, u32) -> (u32, u32),
    >(&mut self, vector: Vec<u32>, dist: &D, rotate: &R, corrections: &C) -> (id: u64)
        requires
            old(self).wf(),
            vector@.len() == old(self).model().dim,
            old(self).model().next_id < u64::MAX,
            clustering::compares_equals(*dist),
            rabitq::keeps_dim(*rotate),
            forall|r: Vec<u32>, e: u32| #[trigger] call_requires(*corrections, (&r, e)),
        ensures
            final(self).wf(),
            id == old(self).model().next_id,
            exists|payload: Payload|
                {
                    &&& #[trigger] crate::payload::payload_fields(payload).is_empty()
                    &&& one_added(
                        *dist,
                        *rotate,
                        *corrections,
                        old(self).model(),
                        vector,
                        payload,
                        final(self).model(),
                    )
                },
            final(self).version() == old(self).version(),
            final(self).file() == old(self).file(),
    {
        let ghost before = self.index@;
        let id: u64 = self.index.add(vector, dist, rotate, corrections);
        proof {
            let (pid, code, payload) = choose|pid: usize, code: rabitq::Code, payload: Payload|
                {
                    &&& #[trigger] index_ivf_rq::insertion(
                        *dist,
                        *rotate,
                        *corrections,
                        before,
                        vector,
                        pid,
                        code,
                    )
                    &&& #[trigger] crate::payload::payload_fields(payload).is_empty()
                    &&& self.index@ == before.added(pid, vector, code, payload)
                };
            assert(one_added(
                *dist,
                *rotate,
                *corrections,
                before,
                vector,
                payload,
                self.index@,
            ));
        }
        id
    }

    /// Adds a vector with its payload, and gives its id.
    pub fn insert_with_payload<
        D: Fn(&Vec<u32>, &Vec<u32>) -> u32,
        R: Fn(&Vec<u32>, &Vec<u32>) -> Vec<u32>,
        C: Fn(&Vec<u32>, u32) -> (u32, u32),
    >(&mut self, vector: Vec<u32>, payload: Payload, dist: &D, rotate: &R, corrections: &C) -> (id:
        u64)
        requires
            old(self).wf(),
            vector@.len() == old(self).model().dim,
            old(self).model().next_id < u64::MAX,
            clustering::compares_equals(*dist),
            rabitq::keeps_dim(*rotate),
            forall|r: Vec<u32>, e: u32| #[trigger] call_requires(*corrections, (&r, e)),
        ensures
            final(self).wf(),
            id == old(self).model().next_id,
            one_added(
                *dist,
                *rotate,
                *corrections,
                old(self).model(),
                vector,
                payload,
                final(self).model(),
            ),
            final(self).version() == old(self).version(),
            final(self).file() == old(self).file(),
    {
        self.index.add_with_payload(vector, payload, dist, rotate, corrections)
    }

    /// Adds vectors with their payloads, and gives the id of the first; 0 where there are none.
    pub fn batch_insert_with_payload<
        D: Fn(&Vec<u32>, &Vec<u32>) -> u32,
        R: Fn(&Vec<u32>, &Vec<u32>) -> Vec<u32>,
        C: Fn(&Vec<u32>, u32) -> (u32, u32),
    >(
        &mut self,
        vectors: Vec<Vec<u32>>,
        payloads: Vec<Payload>,
        dist: &D,
        rotate: &R,
        corrections: &C,
    ) -> (first: u64)
        requires
            old(self).wf(),
            vectors@.len() == payloads@.len(),
            forall|i: int|
                0 <= i < vectors@.len() ==> (#[trigger] vectors@[i])@.len() == old(self).model().dim,
            old(self).model().next_id + vectors@.len() <= u64::MAX,
            clustering::compares_equals(*dist),
            rabitq::keeps_dim(*rotate),
            forall|r: Vec<u32>, e: u32| #[trigger] call_requires(*corrections, (&r, e)),
        ensures
            final(self).wf(),
            first == if vectors@.len() > 0 {
                old(self).model().next_id
            } else {
                0
            },
            exists|models: Seq<IndexModel>| #[trigger]
                all_added(*dist, *rotate, *corrections, vectors@, payloads@, models) && models[0]
                    == old(self).model() && models.last() == final(self).model(),
            final(self).version() == old(self).version(),
            final(self).file() == old(self).file(),
    {
        let ghost all = vectors@;
        let ghost notes = payloads@;
        let ghost mut models: Seq<IndexModel> = seq![self.index@];
        let ghost start = self.index@;
        let ghost file = self.manifest;
        let n: usize = vectors.len();
        let first: u64 = if n > 0 {
            self.index.next_id()
        } else {
            0
        };
        let mut vectors = reversed(vectors);
        let mut payloads = reversed(payloads);
        let mut i: usize = 0;
        while i < n
            invariant
                i <= n,
                n == all.len(),
                n == notes.len(),
                vectors@ == all.skip(i as int).reverse(),
                payloads@ == notes.skip(i as int).reverse(),
                self.wf(),
                self.manifest == file,
                self.index@.dim == start.dim,
                self.index@.next_id == start.next_id + i,
                start.next_id + n <= u64::MAX,
                forall|j: int| 0 <= j < n ==> (#[trigger] all[j])@.len() == start.dim,
                clustering::compares_equals(*dist),
                rabitq::keeps_dim(*rotate),
                forall|r: Vec<u32>, e: u32| #[trigger] call_requires(*corrections, (&r, e)),
                models.len() == i + 1,
                models[0] == start,
                models.last() == self.index@,
                forall|j: int|
                    0 <= j < i ==> one_added(
                        *dist,
                        *rotate,
                        *corrections,
                        models[j],
                        #[trigger] all[j],
                        notes[j],
                        models[j + 1],
                    ),
            decreases n - i,
        {
            assert(all.skip(i as int).reverse().last() == all[i as int]);
            assert(notes.skip(i as int).reverse().last() == notes[i as int]);
            let ghost before = self.index@;
            match (vectors.pop(), payloads.pop()) {
                (Some(vector), Some(payload)) => {
                    assert(vector == all[i as int]);
                    assert(payload == notes[i as int]);
                    assert(vectors@ =~= all.skip(i + 1).reverse());
                    assert(payloads@ =~= notes.skip(i + 1).reverse());
                    self.index.add_with_payload(vector, payload, dist, rotate, corrections);
                    proof {
                        let old_models = models;
                        assert(one_added(
                            *dist,
                            *rotate,
                            *corrections,
                            before,
                            vector,
                            payload,
                            self.index@,
                        ));
                        models = models.push(self.index@);
                        assert forall|j: int| 0 <= j < i + 1 implies one_added(
                            *dist,
                            *rotate,
                            *corrections,
                            models[j],
                            #[trigger] all[j],
                            notes[j],
                            models[j + 1],
                        ) by {
                            assert(models[j] == old_models[j]);
                            if j < i {
                                assert(models[j + 1] == old_models[j + 1]);
                            }
                        }
                    }
                },
                _ => {
                    assert(false);
                },
            }
            i += 1;
        }
        assert(all_added(*dist, *rotate, *corrections, all, notes, models));
        first
    }

    /// The manifest of the next version.
    pub fn next_manifest(&self) -> (manifest: Manifest)
        requires
            self.version() < u64::MAX,
        ensures
            manifest.names(self.version() + 1),
    {
        Manifest::of_version(self.manifest.version + 1)
    }

    /// Notes that the version of a manifest was written.
    pub fn commit(&mut self, manifest: Manifest)
        ensures
            final(self).version() == manifest.version,
            final(self).file() == manifest.index_file@,
            final(self).model() == old(self).model(),
            old(self).wf() ==> final(self).wf(),
    {
        self.manifest = manifest;
    }

    /// Searches the index; see `search::search`.
    pub fn search<
        F: Fn(&Vec<u32>, u32) -> u32,
        E: Fn(u64, u32, u32) -> u32,
        X: Fn(&Vec<u32>) -> u32,
        R: Fn(u8, u32, u32) -> u32,
    >(
        &self,
        query: &QueryCode,
        options: &SearchOptions,
        route: &F,
        estimate: &E,
        exact: &X,
        restore: &R,
    ) -> (results: Vec<(u64, u32)>)
        requires
            self.wf(),
            query.fits(self.model().dim),
            search::routes_numbers(*route, self.model().dim),
            search::estimates_numbers(*estimate),
            search::measures_numbers(*exact, self.model().dim),
            forall|c: u8, lo: u32, hi: u32| #[trigger] call_requires(*restore, (c, lo, hi)),
        ensures
            search::search_outcome(
                *route,
                *estimate,
                *exact,
                *restore,
                self.model(),
                *query,
                *options,
                results@,
            ),
    {
        search::search(&self.index, query, options, route, estimate, exact, restore)
    }

    /// Searches the index for a query; see `search::search_query`.
    pub fn search_query<
        R: Fn(&Vec<u32>, &Vec<u32>) -> Vec<u32>,
        C: Fn(&Vec<u32>, u32) -> (u32, u32),
        N: Fn(&Vec<u32>) -> u32,
        S: Fn(u32, u8) -> u32,
        L: Fn(u32, u32, u8) -> u8,
        F: Fn(&Vec<u32>, u32) -> u32,
        E: Fn(u64, u32, u32) -> u32,
        X: Fn(&Vec<u32>) -> u32,
        Z: Fn(u8, u32, u32) -> u32,
        FM: Fn(&Vec<u32>) -> F,
        EM: Fn(&QueryCode) -> E,
        XM: Fn(&Vec<u32>) -> X,
    >(
        &self,
        query: &Vec<u32>,
        options: &SearchOptions,
        rotate: &R,
        corrections: &C,
        norm: &N,
        step: &S,
        level: &L,
        routing: &FM,
        estimating: &EM,
        measuring: &XM,
        restore: &Z,
    ) -> (results: Vec<(u64, u32)>)
        requires
            self.wf(),
            query@.len() == self.model().dim,
            self.model().raw.len() == 0 || options.k == 0 || options.query_bits == 0
                || rabitq::cuts_byte(options.query_bits),
            rabitq::keeps_dim(*rotate),
            forall|v: Vec<u32>, e: u32| #[trigger] call_requires(*corrections, (&v, e)),
            forall|v: Vec<u32>| #[trigger] call_requires(*norm, (&v,)),
            forall|t: u32, l: u8| #[trigger] call_requires(*step, (t, l)),
            forall|v: u32, t: u32, l: u8| #[trigger] call_requires(*level, (v, t, l)),
            search::gives_routes(*routing, self.model().dim),
            search::gives_estimates(*estimating),
            search::gives_measures(*measuring, self.model().dim),
            forall|c: u8, lo: u32, hi: u32| #[trigger] call_requires(*restore, (c, lo, hi)),
        ensures
            search::query_outcome(
                *rotate,
                *corrections,
                *norm,
                *step,
                *level,
                *routing,
                *estimating,
                *measuring,
                *restore,
                self.model(),
                *query,
                *options,
                results@,
            ),
    {
        search::search_query(
            &self.index,
            query,
            options,
            rotate,
            corrections,
            norm,
            step,
            level,
            routing,
            estimating,
            measuring,
            restore,
        )
    }

    /// Which of the files in the directory of the database are to be taken away: the index files
    /// but the latest.
    pub fn compact(&self, names: &Vec<String>) -> (gone: Vec<usize>)
        ensures
            gone@ == stale_places(names@, self.file(), names@.len() as int),
    {
        let mut gone: Vec<usize> = Vec::new();
        let mut i: usize = 0;
        while i < names.len()
            invariant
                i <= names@.len(),
                gone@ == stale_places(names@, self.manifest.index_file@, i as int),
            decreases names@.len() - i,
        {
            if stale_file(names[i].as_str(), &self.manifest) {
                gone.push(i);
            }
            i += 1;
        }
        gone
    }

    /// What is known of the database as a whole.
    pub fn stats(&self) -> (stats: Stats)
        ensures
            stats.version == self.version(),
            stats.num_vectors == self.model().raw.len(),
            stats.num_partitions == self.model().partitions.len(),
    {
        Stats {
            version: self.manifest.version,
            num_vectors: self.index.len(),
            num_partitions: self.index.num_partitions(),
        }
    }
}

/// A database whose index stays in its file and is only read.
pub struct MmapDatabase {
    index: MmapIndex,
    manifest: Manifest,
}

impl MmapDatabase {
    /// The model of the index.
    pub closed spec fn model(&self) -> MappedModel {
        self.index@
    }

    /// The version that was opened.
    pub closed spec fn version(&self) -> u64 {
        self.manifest.version
    }

    /// The index is well formed.
    pub closed spec fn wf(&self) -> bool {
        self.index.wf()
    }

    /// The database of an index that was opened in the file that a manifest names.
    pub fn open(manifest: Manifest, index: MmapIndex) -> (db: Self)
        ensures
            db.model() == index@,
            db.version() == manifest.version,
            index.wf() ==> db.wf(),
    {
        MmapDatabase { index, manifest }
    }

    /// The index.
    pub fn index(&self) -> (index: &MmapIndex)
        ensures
            index@ == self.model(),
            self.wf() ==> index.wf(),
    {
        &self.index
    }

    /// Searches the index; see `MmapIndex::search`.
    pub fn search<
        F: Fn(u64, usize, usize) -> Option<Vec<u8>>,
        G: Fn(&Vec<u32>, u32) -> u32,
        E: Fn(u64, u32, u32) -> u32,
        X: Fn(&Vec<u32>) -> u32,
    >(
        &self,
        query: &RabitqCode,
        k: usize,
        nprobe: usize,
        fetch: &F,
        route: &G,
        estimate: &E,
        exact: &X,
    ) -> (results: Vec<(u64, u32)>)
        requires
            self.wf(),
            chunked_storage::serves_some(*fetch, self.model().layout),
            query.bits@.len() == self.model().header.dim / 8,
            search::routes_numbers(*route, self.model().header.dim as int),
            search::estimates_numbers(*estimate),
            search::measures_numbers(*exact, self.model().header.dim as int),
        ensures
            mmap_index::mapped_outcome(
                *fetch,
                *route,
                *estimate,
                *exact,
                self.model(),
                *query,
                k as int,
                nprobe as int,
                results@,
            ),
    {
        self.index.search(query, k, nprobe, fetch, route, estimate, exact)
    }

    /// Searches the index for a query; see `MmapIndex::search_query`.
    pub fn search_query<
        F: Fn(u64, usize, usize) -> Option<Vec<u8>>,
        R: Fn(&Vec<u32>, &Vec<u32>) -> Vec<u32>,
        C: Fn(&Vec<u32>, u32) -> (u32, u32),
        G: Fn(&Vec<u32>, u32) -> u32,
        E: Fn(u64, u32, u32) -> u32,
        X: Fn(&Vec<u32>) -> u32,
        GM: Fn(&Vec<u32>) -> G,
        EM: Fn(&RabitqCode) -> E,
        XM: Fn(&Vec<u32>) -> X,
    >(
        &self,
        query: &Vec<u32>,
        k: usize,
        nprobe: usize,
        fetch: &F,
        rotate: &R,
        corrections: &C,
        routing: &GM,
        estimating: &EM,
        measuring: &XM,
    ) -> (results: Vec<(u64, u32)>)
        requires
            self.wf(),
            self.model().header.num_vectors == 0 || k == 0 || query@.len()
                == self.model().header.dim,
            chunked_storage::serves_some(*fetch, self.model().layout),
            rabitq::keeps_dim(*rotate),
            forall|v: Vec<u32>, e: u32| #[trigger] call_requires(*corrections, (&v, e)),
            search::gives_routes(*routing, self.model().header.dim as int),
            mmap_index::gives_code_estimates(*estimating),
            search::gives_measures(*measuring, self.model().header.dim as int),
        ensures
            mmap_index::mapped_query_outcome(
                *fetch,
                *rotate,
                *corrections,
                *routing,
                *estimating,
                *measuring,
                self.model(),
                *query,
                k as int,
                nprobe as int,
                results@,
            ),
    {
        self.index.search_query(
            query,
            k,
            nprobe,
            fetch,
            rotate,
            corrections,
            routing,
            estimating,
            measuring,
        )
    }

    /// What is known of the database as a whole.
    pub fn stats(&self) -> (stats: Stats)
        requires
            self.wf(),
        ensures
            stats.version == self.version(),
            stats.num_vectors == self.model().header.num_vectors,
            stats.num_partitions == self.model().header.num_partitions,
    {
        Stats {
            version: self.manifest.version,
            num_vectors: self.index.len(),
            num_partitions: self.index.num_partitions(),
        }
    }

    /// The dimension of the vectors.
    pub fn dim(&self) -> (n: usize)
        ensures
            n == self.model().header.dim,
    {
        self.index.dim()
    }
}

/// Writing never touches a file that was written before: the next version has a file of its own.
pub proof fn next_version_has_a_new_file(version: u64, earlier: u64)
    requires
        earlier <= version < u64::MAX,
    ensures
        index_file_name((version + 1) as u64) != index_file_name(earlier),
{
    if index_file_name((version + 1) as u64) == index_file_name(earlier) {
        versions_have_own_files((version + 1) as u64, earlier);
    }
}

/// The file of a version is an index file, which compacting takes away unless it is the latest.
pub proof fn file_of_a_version_is_an_index_file(version: u64)
    ensures
        is_index_file(index_file_name(version)),
{
    let name = index_file_name(version);
    let front = "index-"@;
    let back = ".vdb"@;
    assert(name.take(front.len() as int) =~= front);
    assert(name.skip(name.len() - back.len()) =~= back);
}

} // verus!
