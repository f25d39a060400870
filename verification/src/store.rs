//! The domain record, its classification out of a raw hit, and the store
//! that keeps qualifying items deduplicated by identifier and ordered by
//! timestamp, with paginated listing, keyed lookup and text search.

use vstd::prelude::*;

verus! {

use crate::client::{Hit, HitV};
use crate::decimal::{spec_i64_str, i64_to_dec};
use crate::extract::{ClassifyError, has_qual, is_extraction, extract_url};

/// Failure of a store operation.  An in-memory store only ever reports
/// `NotFound`; the other variants name the taxonomy a persistent backing
/// could surface (an unreadable row, broken schema, failed storage).
#[derive(Debug, Clone, Copy, PartialEq, Eq, Structural)]
pub enum StoreError {
    NotFound,
    ParseError,
    SchemaError,
    IOError,
}

/// The classification outcome of an item: a top-level story, a reply, or
/// not qualifying.
#[derive(Debug, Clone, Copy, PartialEq, Eq, Structural)]
pub enum ItemKind {
    Story,
    Comment,
    Unknown,
}

impl Default for ItemKind {
    /// An unclassified item.
    fn default() -> (k: Self)
        ensures
            k == ItemKind::Unknown,
    {
        ItemKind::Unknown
    }
}

/// The stored text of a kind.
pub open spec fn kind_str(k: ItemKind) -> Seq<char> {
    match k {
        ItemKind::Story => "story"@,
        ItemKind::Comment => "comment"@,
        ItemKind::Unknown => "unknown"@,
    }
}

/// The kind a stored text reads back as; anything unrecognized reads as
/// `Unknown`.
pub open spec fn kind_of_str(s: Seq<char>) -> ItemKind {
    if s == "story"@ {
        ItemKind::Story
    } else if s == "comment"@ {
        ItemKind::Comment
    } else {
        ItemKind::Unknown
    }
}

impl ItemKind {
    /// The text this kind is stored as.
    pub fn to_string(&self) -> (s: String)
        ensures
            s@ == kind_str(*self),
    {
        match self {
            ItemKind::Story => "story".to_owned(),
            ItemKind::Comment => "comment".to_owned(),
            ItemKind::Unknown => "unknown".to_owned(),
        }
    }

    /// Reads a kind back from its stored text; never fails, anything
    /// unrecognized is `Unknown`.
    pub fn from_str(s: &str) -> (r: Result<ItemKind, ()>)
        ensures
            r == Ok::<ItemKind, ()>(kind_of_str(s@)),
    {
        let t = s.to_owned();
        if t == "story".to_owned() {
            Ok(ItemKind::Story)
        } else if t == "comment".to_owned() {
            Ok(ItemKind::Comment)
        } else {
            Ok(ItemKind::Unknown)
        }
    }
}

/// Reading a kind's stored text back yields the kind itself.
pub proof fn lemma_kind_roundtrip(k: ItemKind)
    ensures
        kind_of_str(kind_str(k)) == k,
{
    reveal_strlit("story");
    reveal_strlit("comment");
    reveal_strlit("unknown");
    assert("story"@.len() == 5);
    assert("comment"@[0] == 'c');
    assert("unknown"@[0] == 'u');
}

/// The canonical persisted record: one qualifying item of the feed.
#[derive(Debug)]
pub struct Item {
    pub id: String,
    pub kind: ItemKind,
    pub timestamp: u64,
    pub pdf_link: String,
    pub story_title: String,
    pub comment_text: String,
    pub parent_id: String,
    pub author: String,
}

/// The mathematical value of an item.
pub ghost struct ItemV {
    pub id: Seq<char>,
    pub kind: ItemKind,
    pub timestamp: u64,
    pub pdf_link: Seq<char>,
    pub story_title: Seq<char>,
    pub comment_text: Seq<char>,
    pub parent_id: Seq<char>,
    pub author: Seq<char>,
}

impl View for Item {
    type V = ItemV;

    open spec fn view(&self) -> ItemV {
        ItemV {
            id: self.id@,
            kind: self.kind,
            timestamp: self.timestamp,
            pdf_link: self.pdf_link@,
            story_title: self.story_title@,
            comment_text: self.comment_text@,
            parent_id: self.parent_id@,
            author: self.author@,
        }
    }
}

impl Clone for Item {
    /// An exact copy, field by field.
    fn clone(&self) -> (r: Item)
        ensures
            r == *self,
    {
        Item {
            id: self.id.clone(),
            kind: self.kind,
            timestamp: self.timestamp,
            pdf_link: self.pdf_link.clone(),
            story_title: self.story_title.clone(),
            comment_text: self.comment_text.clone(),
            parent_id: self.parent_id.clone(),
            author: self.author.clone(),
        }
    }
}

/// The hit's direct URL holds a qualifying link.
pub open spec fn url_ok(h: HitV) -> bool {
    match h.url {
        Option::Some(u) => has_qual(u),
        Option::None => false,
    }
}

/// The hit's comment text holds a qualifying link.
pub open spec fn comment_ok(h: HitV) -> bool {
    match h.comment_text {
        Option::Some(c) => has_qual(c),
        Option::None => false,
    }
}

/// The hit yields an item at all.
pub open spec fn qualifies(h: HitV) -> bool {
    url_ok(h) || comment_ok(h)
}

/// The kind classification yields: the comment check runs after the URL
/// check and wins when both find a link.
pub open spec fn kind_of(h: HitV) -> ItemKind {
    if comment_ok(h) {
        ItemKind::Comment
    } else if url_ok(h) {
        ItemKind::Story
    } else {
        ItemKind::Unknown
    }
}

/// Title resolution: the story title is taken first and the plain title
/// overrides it when both are present.
pub open spec fn title_of(h: HitV) -> Seq<char> {
    match h.title {
        Option::Some(t) => t,
        Option::None => match h.story_title {
            Option::Some(s) => s,
            Option::None => Seq::<char>::empty(),
        },
    }
}

/// The body an item records: the full comment text whenever the hit has
/// one, empty otherwise.
pub open spec fn body_of(h: HitV) -> Seq<char> {
    match h.comment_text {
        Option::Some(c) => c,
        Option::None => Seq::<char>::empty(),
    }
}

/// The parent identifier an item records: the decimal rendering of the
/// hit's parent, or of zero as the sentinel for a top-level story.
pub open spec fn parent_str_of(h: HitV) -> Seq<char> {
    match h.parent_id {
        Option::Some(p) => spec_i64_str(p as int),
        Option::None => spec_i64_str(0),
    }
}

/// `link` is the link classification extracts for the hit: out of the
/// comment text when that qualifies, else out of the URL.
pub open spec fn link_ok(h: HitV, link: Seq<char>) -> bool {
    if comment_ok(h) {
        match h.comment_text {
            Option::Some(c) => is_extraction(c, link),
            Option::None => false,
        }
    } else if url_ok(h) {
        match h.url {
            Option::Some(u) => is_extraction(u, link),
            Option::None => false,
        }
    } else {
        false
    }
}

/// `it` is the item classification makes of the hit `h`.
pub open spec fn classified(h: HitV, it: ItemV) -> bool {
    &&& it.id == h.object_id
    &&& it.timestamp == h.created_at_i
    &&& it.author == h.author
    &&& it.parent_id == parent_str_of(h)
    &&& it.story_title == title_of(h)
    &&& it.comment_text == body_of(h)
    &&& it.kind == kind_of(h)
    &&& it.kind != ItemKind::Unknown
    &&& link_ok(h, it.pdf_link)
}

impl Item {
    /// Classifies a raw hit into an item.  Succeeds exactly when the URL or
    /// the comment text holds a qualifying link; a hit with neither fails
    /// with `NotQualifying` and produces nothing.
    pub fn from_hit(r: &Hit) -> (res: Result<Item, ClassifyError>)
        ensures
            res is Ok <==> qualifies(r@),
            res matches Ok(it) ==> classified(r@, it@),
            res matches Err(e) ==> e == ClassifyError::NotQualifying && !qualifies(r@),
    {
        let parent = match r.parent_id {
            Some(p) => i64_to_dec(p),
            None => i64_to_dec(0),
        };
        let mut story_title = String::new();
        if let Some(s) = &r.story_title {
            story_title = s.clone();
        }
        if let Some(s) = &r.title {
            story_title = s.clone();
        }
        let mut kind = ItemKind::Unknown;
        let mut pdf_link = String::new();
        if let Some(u) = &r.url {
            match extract_url(u.as_str()) {
                Ok(l) => {
                    pdf_link = l;
                    kind = ItemKind::Story;
                },
                Err(_) => {},
            }
        }
        let mut comment_text = String::new();
        if let Some(c) = &r.comment_text {
            match extract_url(c.as_str()) {
                Ok(l) => {
                    pdf_link = l;
                    kind = ItemKind::Comment;
                },
                Err(_) => {},
            }
            comment_text = c.clone();
        }
        if kind == ItemKind::Unknown {
            return Err(ClassifyError::NotQualifying);
        }
        let it = Item {
            id: r.object_id.clone(),
            kind,
            timestamp: r.created_at_i,
            pdf_link,
            story_title,
            comment_text,
            parent_id: parent,
            author: r.author.clone(),
        };
        Ok(it)
    }
}

/// The store of qualifying items: deduplicated by identifier, kept in
/// timestamp-descending order.
pub struct Store {
    rows: Vec<Item>,
}

/// The values of a sequence of items.
pub open spec fn views_of(s: Seq<Item>) -> Seq<ItemV> {
    s.map_values(|it: Item| it@)
}

impl View for Store {
    type V = Seq<ItemV>;

    closed spec fn view(&self) -> Seq<ItemV> {
        views_of(self.rows@)
    }
}

/// Some row carries this identifier.
pub open spec fn contains_id(rows: Seq<ItemV>, id: Seq<char>) -> bool {
    exists|i: int| 0 <= i < rows.len() && #[trigger] rows[i].id == id
}

/// Where a row with this timestamp goes in a timestamp-descending sequence:
/// after every row with an equal or larger timestamp.
pub open spec fn insert_pos(rows: Seq<ItemV>, ts: u64) -> int
    decreases rows.len(),
{
    if rows.len() == 0 {
        0
    } else if rows[0].timestamp >= ts {
        1 + insert_pos(rows.skip(1), ts)
    } else {
        0
    }
}

/// One row joins the store: nothing changes when its identifier is already
/// present, else it is placed by timestamp.
pub open spec fn insert_one(rows: Seq<ItemV>, it: ItemV) -> Seq<ItemV> {
    if contains_id(rows, it.id) {
        rows
    } else {
        rows.insert(insert_pos(rows, it.timestamp), it)
    }
}

/// A batch joins the store, first row first.
pub open spec fn insert_all(rows: Seq<ItemV>, batch: Seq<ItemV>) -> Seq<ItemV>
    decreases batch.len(),
{
    if batch.len() == 0 {
        rows
    } else {
        insert_all(insert_one(rows, batch[0]), batch.skip(1))
    }
}

proof fn lemma_insert_pos_bounds(rows: Seq<ItemV>, ts: u64)
    ensures
        0 <= insert_pos(rows, ts) <= rows.len(),
        forall|k: int| 0 <= k < insert_pos(rows, ts) ==> rows[k].timestamp >= ts,
        insert_pos(rows, ts) < rows.len() ==> rows[insert_pos(rows, ts)].timestamp < ts,
    decreases rows.len(),
{
    if rows.len() > 0 && rows[0].timestamp >= ts {
        lemma_insert_pos_bounds(rows.skip(1), ts);
        let p = insert_pos(rows, ts);
        assert forall|k: int| 0 <= k < p implies rows[k].timestamp >= ts by {
            if k > 0 {
                assert(rows.skip(1)[k - 1].timestamp >= ts);
            }
        }
        if p < rows.len() {
            assert(rows.skip(1)[p - 1].timestamp < ts);
        }
    }
}

proof fn lemma_insert_pos_unique(rows: Seq<ItemV>, ts: u64, p: int)
    requires
        0 <= p <= rows.len(),
        forall|k: int| 0 <= k < p ==> rows[k].timestamp >= ts,
        p < rows.len() ==> rows[p].timestamp < ts,
    ensures
        insert_pos(rows, ts) == p,
    decreases rows.len(),
{
    if rows.len() == 0 {
    } else if rows[0].timestamp >= ts {
        assert(p >= 1);
        lemma_insert_pos_unique(rows.skip(1), ts, p - 1);
    } else {
        assert(p == 0);
    }
}

impl Store {
    /// Whether the store's rows are deduplicated and ordered: no two rows
    /// share an identifier, and timestamps never increase along the rows.
    pub open spec fn wf(&self) -> bool {
        unique_ids(self@) && sorted_desc(self@)
    }

    /// An empty store.
    pub fn new() -> (s: Store)
        ensures
            s.wf(),
            s@ == Seq::<ItemV>::empty(),
    {
        let s = Store { rows: Vec::new() };
        proof {
            assert(s@ =~= Seq::<ItemV>::empty());
        }
        s
    }

    /// One item joins the store unless its identifier is already present.
    fn insert_item(&mut self, it: Item)
        requires
            old(self).wf(),
        ensures
            final(self).wf(),
            final(self)@ == insert_one(old(self)@, it@),
    {
        let ghost rows0 = self@;
        let n = self.rows.len();
        let mut i: usize = 0;
        while i < n
            invariant
                old(self).wf(),
                old(self)@ == rows0,
                n == self.rows@.len(),
                i <= n,
                self@ == rows0,
                forall|k: int| 0 <= k < i ==> #[trigger] rows0[k].id != it@.id,
            decreases n - i,
        {
            if self.rows[i].id == it.id {
                proof {
                    assert(rows0[i as int].id == it@.id);
                    assert(contains_id(rows0, it@.id));
                    assert(insert_one(rows0, it@) == rows0);
                    assert forall|i2: int, j2: int| 0 <= i2 < j2 < self@.len() implies #[trigger] self@[i2].id
                        != #[trigger] self@[j2].id by {
                        assert(old(self)@[i2].id != old(self)@[j2].id);
                    }
                    assert forall|i2: int, j2: int|
                        0 <= i2 < j2 < self@.len() implies #[trigger] self@[i2].timestamp
                        >= #[trigger] self@[j2].timestamp by {
                        assert(old(self)@[i2].timestamp >= old(self)@[j2].timestamp);
                    }
                }
                return ;
            }
            i += 1;
        }
        proof {
            assert(!contains_id(rows0, it@.id));
        }
        let mut p: usize = 0;
        while p < n && self.rows[p].timestamp >= it.timestamp
            invariant
                old(self).wf(),
                old(self)@ == rows0,
                n == self.rows@.len(),
                p <= n,
                self@ == rows0,
                forall|k: int| 0 <= k < p ==> rows0[k].timestamp >= it@.timestamp,
            decreases n - p,
        {
            p += 1;
        }
        proof {
            lemma_insert_pos_unique(rows0, it@.timestamp, p as int);
        }
        self.rows.insert(p, it);
        proof {
            assert(self@ =~= rows0.insert(p as int, it@)) by {
                assert forall|x: int| 0 <= x < self@.len() implies self@[x] == rows0.insert(
                    p as int,
                    it@,
                )[x] by {
                    if x < p {
                        assert(self.rows@[x] == old(self).rows@[x]);
                    } else if x == p {
                        assert(self.rows@[x] == it);
                    } else {
                        assert(self.rows@[x] == old(self).rows@[x - 1]);
                    }
                }
            }
            assert(self@ == insert_one(rows0, it@));
            let rs = self@;
            assert forall|i2: int, j2: int| 0 <= i2 < j2 < rs.len() implies #[trigger] rs[i2].id
                != #[trigger] rs[j2].id by {
                let a = if i2 < p { i2 } else { i2 - 1 };
                let b = if j2 < p { j2 } else { j2 - 1 };
                if i2 == p {
                    assert(rs[j2] == rows0[b]);
                    assert(rows0[b].id != it@.id) by {
                        if rows0[b].id == it@.id {
                            assert(contains_id(rows0, it@.id));
                        }
                    }
                } else if j2 == p {
                    assert(rs[i2] == rows0[a]);
                    assert(rows0[a].id != it@.id) by {
                        if rows0[a].id == it@.id {
                            assert(contains_id(rows0, it@.id));
                        }
                    }
                } else {
                    assert(rs[i2] == rows0[a] && rs[j2] == rows0[b]);
                    assert(a < b);
                }
            }
            lemma_insert_pos_bounds(rows0, it@.timestamp);
            assert forall|i2: int, j2: int| 0 <= i2 < j2 < rs.len() implies #[trigger] rs[i2].timestamp
                >= #[trigger] rs[j2].timestamp by {
                let a = if i2 < p { i2 } else { i2 - 1 };
                let b = if j2 < p { j2 } else { j2 - 1 };
                if i2 == p {
                    assert(rs[j2] == rows0[b]);
                    assert(b >= p);
                    assert(rows0[p as int].timestamp < it@.timestamp);
                } else if j2 == p {
                    assert(rs[i2] == rows0[a]);
                    assert(a < p);
                } else {
                    assert(rs[i2] == rows0[a] && rs[j2] == rows0[b]);
                    assert(a < b);
                }
            }
        }
    }
}

impl Item {
    /// Stores a whole batch: each entry joins unless its identifier is
    /// already present, so repeated ingestion of overlapping batches never
    /// duplicates or overwrites a row.  Never fails on an in-memory store.
    pub fn store_entries(store: &mut Store, entries: &Vec<Item>) -> (r: Result<(), StoreError>)
        requires
            old(store).wf(),
        ensures
            final(store).wf(),
            final(store)@ == insert_all(old(store)@, views_of(entries@)),
            r is Ok,
    {
        let ghost rows0 = old(store)@;
        let ghost batch = views_of(entries@);
        let n = entries.len();
        let mut k: usize = 0;
        while k < n
            invariant
                old(store).wf(),
                n == entries@.len(),
                batch == views_of(entries@),
                k <= n,
                store.wf(),
                store@ == insert_all(rows0, batch.take(k as int)),
            decreases n - k,
        {
            let it = entries[k].clone();
            store.insert_item(it);
            proof {
                assert(batch.take(k as int).push(batch[k as int]) =~= batch.take(k + 1));
                lemma_insert_all_push(rows0, batch.take(k as int), batch[k as int]);
            }
            k += 1;
        }
        proof {
            assert(batch.take(n as int) =~= batch);
        }
        Ok(())
    }
}

/// Appending one more row to a batch inserts it after the rest.
proof fn lemma_insert_all_push(rows: Seq<ItemV>, batch: Seq<ItemV>, x: ItemV)
    ensures
        insert_all(rows, batch.push(x)) == insert_one(insert_all(rows, batch), x),
    decreases batch.len(),
{
    if batch.len() == 0 {
        assert(batch.push(x)[0] == x);
        assert(batch.push(x).skip(1) =~= Seq::<ItemV>::empty());
        assert(insert_all(insert_one(rows, x), batch.push(x).skip(1)) == insert_one(rows, x));
    } else {
        assert(batch.push(x)[0] == batch[0]);
        assert(batch.push(x).skip(1) =~= batch.skip(1).push(x));
        lemma_insert_all_push(insert_one(rows, batch[0]), batch.skip(1), x);
    }
}

impl Item {
    /// Exact lookup by identifier: the stored row carrying `id`, or
    /// `NotFound` when no row does.
    pub fn get_one(store: &Store, id: &str) -> (r: Result<Item, StoreError>)
        requires
            store.wf(),
        ensures
            match r {
                Ok(it) => contains_id(store@, id@) && exists|i: int|
                    0 <= i < store@.len() && #[trigger] store@[i].id == id@ && it@ == store@[i],
                Err(e) => e == StoreError::NotFound && !contains_id(store@, id@),
            },
    {
        let key = id.to_owned();
        let n = store.rows.len();
        let mut i: usize = 0;
        while i < n
            invariant
                n == store.rows@.len(),
                i <= n,
                key@ == id@,
                forall|k: int| 0 <= k < i ==> #[trigger] store@[k].id != id@,
            decreases n - i,
        {
            if store.rows[i].id == key {
                let it = store.rows[i].clone();
                proof {
                    assert(store@[i as int].id == id@);
                }
                return Ok(it);
            }
            i += 1;
        }
        proof {
            assert(!contains_id(store@, id@));
        }
        Err(StoreError::NotFound)
    }
}

/// The smaller of two numbers.
pub open spec fn spec_min(a: int, b: int) -> int {
    if a < b {
        a
    } else {
        b
    }
}

/// The first `n` rows, or all of them when there are fewer.
pub open spec fn take_at_most(s: Seq<ItemV>, n: int) -> Seq<ItemV> {
    if s.len() <= n {
        s
    } else {
        s.take(n)
    }
}

/// No two rows share an identifier.
pub open spec fn unique_ids(rows: Seq<ItemV>) -> bool {
    forall|i: int, j: int|
        0 <= i < j < rows.len() ==> #[trigger] rows[i].id != #[trigger] rows[j].id
}

/// Timestamps never increase along the rows.
pub open spec fn sorted_desc(rows: Seq<ItemV>) -> bool {
    forall|i: int, j: int|
        0 <= i < j < rows.len() ==> #[trigger] rows[i].timestamp >= #[trigger] rows[j].timestamp
}

/// What a paginated listing returns: the rows strictly before `from`, in
/// stored (timestamp-descending) order, capped at the smaller of `limit`
/// and the hard maximum of twenty.
pub open spec fn list_spec(rows: Seq<ItemV>, from: u64, limit: u64) -> Seq<ItemV> {
    take_at_most(rows.filter(|x: ItemV| x.timestamp < from), spec_min(limit as int, 20))
}

/// The row matches a search pattern: the pattern occurs in its title or in
/// its body.
pub open spec fn text_match(x: ItemV, pat: Seq<char>) -> bool {
    crate::text::contains_seq(x.story_title, pat) || crate::text::contains_seq(
        x.comment_text,
        pat,
    )
}

/// What a text search returns: the matching rows in stored order, capped
/// at fifty.
pub open spec fn search_spec(rows: Seq<ItemV>, pat: Seq<char>) -> Seq<ItemV> {
    take_at_most(rows.filter(|x: ItemV| text_match(x, pat)), 50)
}

/// Filtering one more row keeps the rest of the filtered sequence.
proof fn lemma_filter_push(s: Seq<ItemV>, pred: spec_fn(ItemV) -> bool, x: ItemV)
    ensures
        s.push(x).filter(pred) == if pred(x) {
            s.filter(pred).push(x)
        } else {
            s.filter(pred)
        },
{
    reveal(Seq::filter);
    assert(s.push(x).drop_last() =~= s);
    assert(s.push(x).last() == x);
}

/// One step of a capped filtering pass: how the collected prefix grows, or
/// stays, when one more row is considered.
proof fn lemma_take_at_most_step(f0: Seq<ItemV>, x: ItemV, keep: bool, cap: int, o: Seq<ItemV>)
    requires
        cap >= 0,
        o == take_at_most(f0, cap),
        o.len() <= cap,
    ensures
        keep && o.len() < cap ==> take_at_most(if keep {
            f0.push(x)
        } else {
            f0
        }, cap) == o.push(x),
        !(keep && o.len() < cap) ==> take_at_most(if keep {
            f0.push(x)
        } else {
            f0
        }, cap) == o,
{
    if keep {
        if o.len() < cap {
            assert(f0.len() <= cap);
            assert(o == f0);
            if f0.push(x).len() <= cap {
                assert(take_at_most(f0.push(x), cap) == f0.push(x));
            } else {
                assert(f0.push(x).take(cap) =~= f0.push(x));
            }
        } else {
            assert(o.len() == cap);
            assert(f0.len() >= cap);
            assert(f0.push(x).take(cap) =~= if f0.len() <= cap {
                f0
            } else {
                f0.take(cap)
            });
        }
    }
}

impl Item {
    /// Reverse-chronological pagination: the stored rows with timestamp
    /// strictly before `from`, in timestamp-descending order, at most
    /// `limit` of them and never more than twenty.  Never fails on an
    /// in-memory store.
    pub fn get_list(store: &Store, from: u64, limit: u64) -> (r: Result<Vec<Item>, StoreError>)
        requires
            store.wf(),
        ensures
            r matches Ok(v) && views_of(v@) == list_spec(store@, from, limit),
    {
        let cap: u64 = if limit < 20 {
            limit
        } else {
            20
        };
        let ghost capi = spec_min(limit as int, 20);
        let ghost pred = |x: ItemV| x.timestamp < from;
        let mut out: Vec<Item> = Vec::new();
        let n = store.rows.len();
        let mut i: usize = 0;
        proof {
            reveal(Seq::filter);
            assert(store@.take(0) =~= Seq::<ItemV>::empty());
            assert(views_of(out@) =~= Seq::<ItemV>::empty());
        }
        while i < n
            invariant
                store.wf(),
                n == store.rows@.len(),
                i <= n,
                cap == capi,
                capi == spec_min(limit as int, 20),
                pred == (|x: ItemV| x.timestamp < from),
                out@.len() <= capi,
                views_of(out@) == take_at_most(store@.take(i as int).filter(pred), capi),
            decreases n - i,
        {
            let ghost f0 = store@.take(i as int).filter(pred);
            let ghost o0 = views_of(out@);
            let row = &store.rows[i];
            let keep = row.timestamp < from;
            proof {
                assert(store@.take(i as int).push(store@[i as int]) =~= store@.take(i as int + 1));
                lemma_filter_push(store@.take(i as int), pred, store@[i as int]);
            }
            if keep && out.len() < cap as usize {
                out.push(row.clone());
                proof {
                    assert(views_of(out@) =~= o0.push(store@[i as int]));
                    lemma_take_at_most_step(f0, store@[i as int], keep, capi, o0);
                }
            } else {
                proof {
                    lemma_take_at_most_step(f0, store@[i as int], keep, capi, o0);
                }
            }
            i += 1;
        }
        proof {
            assert(store@.take(n as int) =~= store@);
        }
        Ok(out)
    }

    /// Text search: the stored rows whose title or body holds the pattern,
    /// in stored order, capped at fifty.  Never fails on an in-memory
    /// store.
    pub fn search(store: &Store, text: &str) -> (r: Result<Vec<Item>, StoreError>)
        requires
            store.wf(),
        ensures
            r matches Ok(v) && views_of(v@) == search_spec(store@, text@),
    {
        let ghost pred = |x: ItemV| text_match(x, text@);
        let mut out: Vec<Item> = Vec::new();
        let n = store.rows.len();
        let mut i: usize = 0;
        proof {
            reveal(Seq::filter);
            assert(store@.take(0) =~= Seq::<ItemV>::empty());
            assert(views_of(out@) =~= Seq::<ItemV>::empty());
        }
        while i < n
            invariant
                store.wf(),
                n == store.rows@.len(),
                i <= n,
                pred == (|x: ItemV| text_match(x, text@)),
                out@.len() <= 50,
                views_of(out@) == take_at_most(store@.take(i as int).filter(pred), 50),
            decreases n - i,
        {
            let ghost f0 = store@.take(i as int).filter(pred);
            let ghost o0 = views_of(out@);
            let row = &store.rows[i];
            let keep = crate::text::contains_substring(row.story_title.as_str(), text)
                || crate::text::contains_substring(row.comment_text.as_str(), text);
            proof {
                assert(keep == pred(store@[i as int]));
                assert(store@.take(i as int).push(store@[i as int]) =~= store@.take(i as int + 1));
                lemma_filter_push(store@.take(i as int), pred, store@[i as int]);
            }
            if keep && out.len() < 50 {
                out.push(row.clone());
                proof {
                    assert(views_of(out@) =~= o0.push(store@[i as int]));
                    lemma_take_at_most_step(f0, store@[i as int], keep, 50, o0);
                }
            } else {
                proof {
                    lemma_take_at_most_step(f0, store@[i as int], keep, 50, o0);
                }
            }
            i += 1;
        }
        proof {
            assert(store@.take(n as int) =~= store@);
        }
        Ok(out)
    }
}

proof fn lemma_insert_one_keeps(rows: Seq<ItemV>, x: ItemV, id: Seq<char>)
    requires
        contains_id(rows, id),
    ensures
        contains_id(insert_one(rows, x), id),
{
    if !contains_id(rows, x.id) {
        let p = insert_pos(rows, x.timestamp);
        lemma_insert_pos_bounds(rows, x.timestamp);
        rows.insert_ensures(p, x);
        let w = choose|i: int| 0 <= i < rows.len() && #[trigger] rows[i].id == id;
        if w < p {
            assert(rows.insert(p, x)[w] == rows[w]);
            assert(rows.insert(p, x)[w].id == id);
        } else {
            assert(rows.insert(p, x)[w + 1] == rows[w]);
            assert(rows.insert(p, x)[w + 1].id == id);
        }
    }
}

proof fn lemma_insert_one_adds(rows: Seq<ItemV>, x: ItemV)
    ensures
        contains_id(insert_one(rows, x), x.id),
{
    if !contains_id(rows, x.id) {
        let p = insert_pos(rows, x.timestamp);
        lemma_insert_pos_bounds(rows, x.timestamp);
        rows.insert_ensures(p, x);
        assert(rows.insert(p, x)[p].id == x.id);
    }
}

proof fn lemma_insert_all_keeps(rows: Seq<ItemV>, batch: Seq<ItemV>, id: Seq<char>)
    requires
        contains_id(rows, id),
    ensures
        contains_id(insert_all(rows, batch), id),
    decreases batch.len(),
{
    if batch.len() > 0 {
        lemma_insert_one_keeps(rows, batch[0], id);
        lemma_insert_all_keeps(insert_one(rows, batch[0]), batch.skip(1), id);
    }
}

proof fn lemma_insert_all_adds(rows: Seq<ItemV>, batch: Seq<ItemV>)
    ensures
        forall|j: int|
            0 <= j < batch.len() ==> contains_id(insert_all(rows, batch), (#[trigger] batch[j]).id),
    decreases batch.len(),
{
    if batch.len() > 0 {
        let mid = insert_one(rows, batch[0]);
        lemma_insert_one_adds(rows, batch[0]);
        lemma_insert_all_keeps(mid, batch.skip(1), batch[0].id);
        lemma_insert_all_adds(mid, batch.skip(1));
        assert forall|j: int|
            0 <= j < batch.len() implies contains_id(
            insert_all(rows, batch),
            (#[trigger] batch[j]).id,
        ) by {
            if j > 0 {
                assert(batch.skip(1)[j - 1] == batch[j]);
            }
        }
    }
}

proof fn lemma_insert_all_noop(rows: Seq<ItemV>, batch: Seq<ItemV>)
    requires
        forall|j: int| 0 <= j < batch.len() ==> contains_id(rows, (#[trigger] batch[j]).id),
    ensures
        insert_all(rows, batch) == rows,
    decreases batch.len(),
{
    if batch.len() > 0 {
        assert(contains_id(rows, batch[0].id));
        assert(insert_one(rows, batch[0]) == rows);
        assert forall|j: int|
            0 <= j < batch.skip(1).len() implies contains_id(
            rows,
            (#[trigger] batch.skip(1)[j]).id,
        ) by {
            assert(batch.skip(1)[j] == batch[j + 1]);
        }
        lemma_insert_all_noop(rows, batch.skip(1));
    }
}

/// Ingesting one batch twice leaves the store exactly as one ingestion
/// left it: after the first pass every identifier of the batch is present,
/// so the second pass changes neither the row count nor any row.
pub proof fn lemma_insert_idempotent(rows: Seq<ItemV>, batch: Seq<ItemV>)
    ensures
        insert_all(insert_all(rows, batch), batch) == insert_all(rows, batch),
{
    let mid = insert_all(rows, batch);
    lemma_insert_all_adds(rows, batch);
    lemma_insert_all_noop(mid, batch);
}

proof fn lemma_filter_sorted(s: Seq<ItemV>, pred: spec_fn(ItemV) -> bool)
    requires
        sorted_desc(s),
    ensures
        sorted_desc(s.filter(pred)),
        forall|i: int| 0 <= i < s.filter(pred).len() ==> s.contains(#[trigger] s.filter(pred)[i]),
    decreases s.len(),
{
    reveal(Seq::filter);
    if s.len() > 0 {
        let d = s.drop_last();
        assert forall|i: int, j: int|
            0 <= i < j < d.len() implies #[trigger] d[i].timestamp >= #[trigger] d[j].timestamp by {
            assert(s[i].timestamp >= s[j].timestamp);
        }
        lemma_filter_sorted(d, pred);
        let fd = d.filter(pred);
        let f = s.filter(pred);
        assert forall|i: int| 0 <= i < f.len() implies s.contains(#[trigger] f[i]) by {
            if i < fd.len() {
                assert(fd[i] == f[i]);
                assert(d.contains(fd[i]));
                let k = choose|k: int| 0 <= k < d.len() && d[k] == fd[i];
                assert(s[k] == f[i]);
            } else {
                assert(f[i] == s.last());
                assert(s[s.len() - 1] == s.last());
            }
        }
        if pred(s.last()) {
            assert(f == fd.push(s.last()));
            assert forall|i: int, j: int|
                0 <= i < j < f.len() implies #[trigger] f[i].timestamp
                >= #[trigger] f[j].timestamp by {
                if j < fd.len() {
                    assert(fd[i].timestamp >= fd[j].timestamp);
                } else {
                    assert(f[j] == s.last());
                    assert(d.contains(fd[i]));
                    let k = choose|k: int| 0 <= k < d.len() && d[k] == fd[i];
                    assert(s[k].timestamp >= s[s.len() - 1].timestamp);
                }
            }
        }
    }
}

/// Pagination bounds: a listing holds at most `limit` rows, every row's
/// timestamp lies strictly before the bound, and the rows come in
/// non-increasing timestamp order.
pub proof fn lemma_list_paginated(rows: Seq<ItemV>, from: u64, limit: u64)
    requires
        sorted_desc(rows),
    ensures
        list_spec(rows, from, limit).len() <= limit,
        forall|i: int|
            0 <= i < list_spec(rows, from, limit).len() ==> (#[trigger] list_spec(
                rows,
                from,
                limit,
            )[i]).timestamp < from,
        sorted_desc(list_spec(rows, from, limit)),
{
    let pred = |x: ItemV| x.timestamp < from;
    let f = rows.filter(pred);
    let l = list_spec(rows, from, limit);
    lemma_filter_sorted(rows, pred);
    assert forall|i: int| 0 <= i < l.len() implies (#[trigger] l[i]).timestamp < from by {
        assert(l[i] == f[i]);
        rows.lemma_filter_pred(pred, i);
    }
    assert forall|i: int, j: int|
        0 <= i < j < l.len() implies #[trigger] l[i].timestamp >= #[trigger] l[j].timestamp by {
        assert(l[i] == f[i] && l[j] == f[j]);
    }
}

/// Search completeness: a stored row whose title or body holds the pattern
/// appears among the search results whenever at most fifty rows match.
pub proof fn lemma_search_complete(rows: Seq<ItemV>, pat: Seq<char>, i: int)
    requires
        0 <= i < rows.len(),
        text_match(rows[i], pat),
        rows.filter(|x: ItemV| text_match(x, pat)).len() <= 50,
    ensures
        search_spec(rows, pat).contains(rows[i]),
{
    rows.lemma_filter_contains(|x: ItemV| text_match(x, pat), i);
}

/// A hit whose URL starts with a scheme and ends with the document suffix,
/// and whose comment text yields no link, classifies as a story whose link
/// is the whole URL.
pub proof fn lemma_classify_story(h: HitV, it: ItemV)
    requires
        classified(h, it),
        match h.url {
            Option::Some(u) => crate::extract::scheme_at(u, 0) && crate::extract::pdf_end_at(
                u,
                u.len() as int,
            ) && crate::extract::scheme_end(u, 0) + 4 <= u.len(),
            Option::None => false,
        },
        !comment_ok(h),
    ensures
        it.kind == ItemKind::Story,
        match h.url {
            Option::Some(u) => it.pdf_link == u,
            Option::None => false,
        },
{
    if let Option::Some(u) = h.url {
        crate::extract::lemma_full_extraction(u);
        assert(url_ok(h));
        assert(is_extraction(u, it.pdf_link));
    }
}

/// A hit whose comment text holds a qualifying link classifies as a
/// comment, whatever its URL held: the body records the full comment text
/// and the link is the one extracted from it.  This also fixes the
/// precedence when both the URL and the comment qualify: the comment check
/// runs after the URL check and wins.
pub proof fn lemma_classify_comment(h: HitV, it: ItemV)
    requires
        classified(h, it),
        comment_ok(h),
    ensures
        it.kind == ItemKind::Comment,
        it.comment_text == body_of(h),
        match h.comment_text {
            Option::Some(c) => is_extraction(c, it.pdf_link),
            Option::None => false,
        },
{
}

} // verus!
