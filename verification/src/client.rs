//! The shapes of the remote search feed: one page of results and one raw
//! hit, plus the normalization pass that decodes HTML entities embedded in
//! comment text.  Fetching a page is the caller's business; this module only
//! holds and normalizes what came back.

use vstd::prelude::*;

verus! {

/// Failure of one fetch: the transport failed, or the response body did not
/// parse into the expected shape.
#[derive(Debug, Clone, Copy, PartialEq, Eq, Structural)]
pub enum ClientError {
    TransportError,
    DecodeError,
}

/// One raw record of the remote search feed.  Top-level posts populate
/// `title` and `url`; replies populate `comment_text` and `parent_id`.
pub struct Hit {
    pub created_at: String,
    pub title: Option<String>,
    pub url: Option<String>,
    pub author: String,
    pub points: Option<i64>,
    pub story_text: Option<String>,
    pub comment_text: Option<String>,
    pub num_comments: Option<i64>,
    pub story_id: Option<i64>,
    pub story_title: Option<String>,
    pub story_url: Option<String>,
    pub parent_id: Option<i64>,
    pub created_at_i: u64,
    pub tags: Vec<String>,
    pub object_id: String,
}

/// The mathematical value of a raw hit.
pub ghost struct HitV {
    pub created_at: Seq<char>,
    pub title: Option<Seq<char>>,
    pub url: Option<Seq<char>>,
    pub author: Seq<char>,
    pub points: Option<i64>,
    pub story_text: Option<Seq<char>>,
    pub comment_text: Option<Seq<char>>,
    pub num_comments: Option<i64>,
    pub story_id: Option<i64>,
    pub story_title: Option<Seq<char>>,
    pub story_url: Option<Seq<char>>,
    pub parent_id: Option<i64>,
    pub created_at_i: u64,
    pub tags: Seq<Seq<char>>,
    pub object_id: Seq<char>,
}

/// The view of an optional string.
pub open spec fn opt_view(o: Option<String>) -> Option<Seq<char>> {
    match o {
        Option::Some(s) => Option::Some(s@),
        Option::None => Option::None,
    }
}

impl View for Hit {
    type V = HitV;

    open spec fn view(&self) -> HitV {
        HitV {
            created_at: self.created_at@,
            title: opt_view(self.title),
            url: opt_view(self.url),
            author: self.author@,
            points: self.points,
            story_text: opt_view(self.story_text),
            comment_text: opt_view(self.comment_text),
            num_comments: self.num_comments,
            story_id: self.story_id,
            story_title: opt_view(self.story_title),
            story_url: opt_view(self.story_url),
            parent_id: self.parent_id,
            created_at_i: self.created_at_i,
            tags: self.tags@.map_values(|t: String| t@),
            object_id: self.object_id@,
        }
    }
}

/// The value of a hit with every field absent or empty.
pub open spec fn empty_hit() -> HitV {
    HitV {
        created_at: Seq::<char>::empty(),
        title: Option::None,
        url: Option::None,
        author: Seq::<char>::empty(),
        points: Option::None,
        story_text: Option::None,
        comment_text: Option::None,
        num_comments: Option::None,
        story_id: Option::None,
        story_title: Option::None,
        story_url: Option::None,
        parent_id: Option::None,
        created_at_i: 0,
        tags: Seq::<Seq<char>>::empty(),
        object_id: Seq::<char>::empty(),
    }
}

impl Default for Hit {
    /// A hit with every field absent or empty.
    fn default() -> (h: Hit)
        ensures
            h@ == empty_hit(),
    {
        let h = Hit {
            created_at: String::new(),
            title: None,
            url: None,
            author: String::new(),
            points: None,
            story_text: None,
            comment_text: None,
            num_comments: None,
            story_id: None,
            story_title: None,
            story_url: None,
            parent_id: None,
            created_at_i: 0,
            tags: Vec::new(),
            object_id: String::new(),
        };
        proof {
            assert(h.tags@.map_values(|t: String| t@) =~= Seq::<Seq<char>>::empty());
            assert(h@ == empty_hit());
        }
        h
    }
}

/// One page of search results as the remote feed returns it.
pub struct Root {
    pub hits: Vec<Hit>,
    pub nb_hits: i64,
    pub page: i64,
    pub nb_pages: i64,
    pub hits_per_page: i64,
}

/// The values of a sequence of hits.
pub open spec fn hits_v(v: Seq<Hit>) -> Seq<HitV> {
    v.map_values(|h: Hit| h@)
}

/// What HTML-entity decoding makes of a piece of text.  The decoded form is
/// a function of the characters alone.
pub uninterp spec fn decoded_of(s: Seq<char>) -> Seq<char>;

/// Relies on html_escape::decode_html_entities: decodes the exact named and
/// numeric character references of the text, a function of its characters
/// alone; an empty text stays empty.
#[verifier::external_body]
fn decode_entities(s: &str) -> (r: String)
    ensures
        r@ == decoded_of(s@),
        s@.len() == 0 ==> r@ == s@,
{
    html_escape::decode_html_entities(s).to_string()
}

/// The value of a hit after its comment text is decoded.
pub open spec fn decoded_hit(h: HitV) -> HitV {
    HitV {
        comment_text: match h.comment_text {
            Option::Some(c) => Option::Some(decoded_of(c)),
            Option::None => Option::None,
        },
        ..h
    }
}

/// Decodes the HTML entities embedded in the comment text of every hit of
/// one result page; every other field stays as it was.  The remote feed
/// double-encodes entities in quoted text, so this runs over each fetched
/// page before classification.
pub fn decode_comments(root: Root) -> (r: Root)
    ensures
        hits_v(r.hits@) == hits_v(root.hits@).map_values(|h: HitV| decoded_hit(h)),
        r.nb_hits == root.nb_hits,
        r.page == root.page,
        r.nb_pages == root.nb_pages,
        r.hits_per_page == root.hits_per_page,
{
    let ghost orig: Seq<HitV> = hits_v(root.hits@);
    let Root { mut hits, nb_hits, page, nb_pages, hits_per_page } = root;
    let mut out: Vec<Hit> = Vec::new();
    while hits.len() > 0
        invariant
            orig.len() == out@.len() + hits@.len(),
            hits_v(hits@) =~= orig.skip(out@.len() as int),
            hits_v(out@) =~= orig.take(out@.len() as int).map_values(|hh: HitV| decoded_hit(hh)),
        decreases hits@.len(),
    {
        let ghost k = out@.len() as int;
        let ghost pre = hits@;
        let ghost out0 = out@;
        let mut h = hits.remove(0);
        proof {
            assert(h@ == hits_v(pre)[0]);
            assert(h@ == orig[k]);
        }
        let dec: Option<String> = match &h.comment_text {
            Some(c) => Some(decode_entities(c.as_str())),
            None => None,
        };
        match dec {
            Some(d) => {
                h.comment_text = Some(d);
            },
            None => {},
        }
        proof {
            assert(h@ == decoded_hit(orig[k]));
        }
        out.push(h);
        proof {
            assert forall|i: int| 0 <= i < k + 1 implies #[trigger] hits_v(out@)[i] == orig.take(
                k + 1,
            ).map_values(|hh: HitV| decoded_hit(hh))[i] by {
                assert(orig.take(k + 1)[i] == orig[i]);
                if i < k {
                    assert(out@[i] == out0[i]);
                    assert(hits_v(out0)[i] == orig.take(k).map_values(
                        |hh: HitV| decoded_hit(hh),
                    )[i]);
                    assert(orig.take(k)[i] == orig[i]);
                } else {
                    assert(out@[i] == h);
                }
            }
            assert(hits_v(out@) =~= orig.take(k + 1).map_values(|hh: HitV| decoded_hit(hh)));
            assert forall|i: int| 0 <= i < hits@.len() implies #[trigger] hits_v(hits@)[i]
                == orig.skip(k + 1)[i] by {
                assert(hits@[i] == pre[i + 1]);
                assert(hits_v(pre)[i + 1] == orig.skip(k)[i + 1]);
                assert(orig.skip(k)[i + 1] == orig[k + 1 + i]);
                assert(orig.skip(k + 1)[i] == orig[k + 1 + i]);
            }
            assert(hits_v(hits@) =~= orig.skip(k + 1));
        }
    }
    proof {
        assert(orig.take(out@.len() as int) =~= orig);
        assert(hits_v(out@) == orig.map_values(|hh: HitV| decoded_hit(hh)));
        assert(orig.map_values(|hh: HitV| decoded_hit(hh)) =~= hits_v(root.hits@).map_values(
            |h: HitV| decoded_hit(h),
        ));
    }
    Root { hits: out, nb_hits, page, nb_pages, hits_per_page }
}

} // verus!
