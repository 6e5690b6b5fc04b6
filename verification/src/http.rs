//! The answers of the read interface to the cache.
//!
//! A mirror is read under its name; without a name the main mirror is
//! read, if there is one. Answers other than `200` have no body. A mirror
//! that is not ready is not read, except for how far it was applied.
use vstd::prelude::*;
use vstd::string::*;
use vstd::utf8::encode_utf8;

use crate::assoc::{as_map, lookup, unique_keys};
use crate::cache::{
    in_partition_order, listed_offsets, CacheState, CacheView, SlotView, TopicPartitionOffset,
};
use crate::json::{
    close_json, is_flat, is_flat_list, items_of, json_bytes, json_of, members_of, write_json, Json,
    Opened,
};
use crate::text::{dec, decimal};
use crate::utf8::text_of_bytes;

verus! {

/// The name of the header that says how far the mirror was applied.
pub const KKV_OFFSETS_HEADER: &'static str = "x-kkv-last-seen-offsets";

/// How far one partition was applied, as it is told to readers.
#[derive(Debug, PartialEq, Eq)]
pub struct TopicPartitionOffsetJson {
    pub offset: u64,
    pub partition: u32,
    pub topic: String,
}

impl TopicPartitionOffsetJson {
    pub fn of(tpo: &TopicPartitionOffset) -> (r: Self)
        ensures
            r.offset == tpo.offset,
            r.partition == tpo.partition,
            r.topic@ == tpo.topic@,
    {
        TopicPartitionOffsetJson {
            offset: tpo.offset,
            partition: tpo.partition,
            topic: tpo.topic.clone(),
        }
    }

    pub open spec fn json(&self) -> Json {
        offset_json(((self.topic@, self.partition), self.offset))
    }

    fn value(&self) -> (v: serde_json::Value)
        ensures
            json_of(v) == self.json(),
    {
        let m = vec![
            ("offset".to_owned(), close_json(Opened::Uint(self.offset))),
            ("partition".to_owned(), close_json(Opened::Uint(self.partition as u64))),
            ("topic".to_owned(), close_json(Opened::Text(self.topic.clone()))),
        ];
        proof {
            lemma_offset_json(((self.topic@, self.partition), self.offset));
            assert(members_of(m@) =~= self.json()->Object_0);
        }
        close_json(Opened::Object(m))
    }
}

/// How far one partition was applied, as an object.
pub open spec fn offset_json(e: ((Seq<char>, u32), u64)) -> Json {
    Json::Object(
        seq![
            ("offset"@, Json::Int(e.1 as int)),
            ("partition"@, Json::Int(e.0.1 as int)),
            ("topic"@, Json::Text(e.0.0)),
        ],
    )
}

proof fn lemma_offset_json(e: ((Seq<char>, u32), u64))
    ensures
        is_flat(offset_json(e)),
{
    reveal_strlit("offset");
    reveal_strlit("partition");
    reveal_strlit("topic");
    assert("offset"@.len() == 6);
    assert("partition"@.len() == 9);
    assert("topic"@.len() == 5);
}

/// How far partitions were applied, as a list of objects.
pub open spec fn offsets_json(l: Seq<((Seq<char>, u32), u64)>) -> Json {
    Json::List(l.map_values(|e: ((Seq<char>, u32), u64)| offset_json(e)))
}

/// Whether `bytes` tell how far the mirror was applied: a list in the
/// order of topics and partitions.
pub open spec fn tells_offsets(s: SlotView, bytes: Seq<u8>) -> bool {
    exists|l: Seq<((Seq<char>, u32), u64)>|
        #![trigger offsets_json(l)]
        in_partition_order(l) && unique_keys(l) && as_map(l) == s.offsets && bytes == json_bytes(
            offsets_json(l),
        )
}

/// An answer.
#[derive(Debug, PartialEq, Eq)]
pub struct HttpResponse {
    pub status: u16,
    pub content_type: Option<String>,
    /// The value of the offsets header.
    pub offsets: Option<String>,
    pub body: Vec<u8>,
}

impl HttpResponse {
    /// An answer without headers and body.
    pub open spec fn is_bare(&self, status: u16) -> bool {
        self.status == status && self.content_type is None && self.offsets is None
            && self.body@.len() == 0
    }

    /// An answer with a body that tells how far the mirror was applied.
    pub open spec fn is_read(&self, s: SlotView, content_type: Seq<char>, body: Seq<u8>) -> bool {
        &&& self.status == 200
        &&& self.content_type matches Some(t) && t@ == content_type
        &&& self.offsets matches Some(o) && tells_offsets(s, encode_utf8(o@))
        &&& self.body@ == body
    }

    fn bare(status: u16) -> (r: Self)
        ensures
            r.is_bare(status),
    {
        HttpResponse { status, content_type: None, offsets: None, body: Vec::new() }
    }
}

/// The value of the offsets header for a registered mirror.
fn offsets_header_for(cache: &CacheState, mirror: &str) -> (r: Option<String>)
    requires
        cache.wf(),
    ensures
        r is Some <==> cache@.slot(mirror@) is Some,
        r matches Some(o) ==> tells_offsets(cache@.slot(mirror@)->0, encode_utf8(o@)),
{
    let offsets = match cache.snapshot_offsets_for(mirror) {
        Some(v) => v,
        None => {
            return None;
        },
    };
    let ghost l = listed_offsets(offsets@);
    let mut list: Vec<serde_json::Value> = Vec::new();
    let mut i: usize = 0;
    while i < offsets.len()
        invariant
            i <= offsets.len(),
            l == listed_offsets(offsets@),
            list.len() == i,
            forall|j: int| 0 <= j < i ==> json_of(#[trigger] list@[j]) == offset_json(l[j]),
        decreases offsets.len() - i,
    {
        let v = TopicPartitionOffsetJson::of(&offsets[i]).value();
        list.push(v);
        i += 1;
    }
    proof {
        assert(items_of(list@) =~= l.map_values(|e: ((Seq<char>, u32), u64)| offset_json(e)));
        let items = offsets_json(l)->List_0;
        assert forall|k: int| 0 <= k < items.len() implies is_flat(#[trigger] items[k]) by {
            lemma_offset_json(l[k]);
        }
        assert(is_flat_list(offsets_json(l)));
    }
    let v = close_json(Opened::List(list));
    match write_json(&v) {
        Ok(b) => match text_of_bytes(b.as_slice()) {
            Ok(s) => {
                assert(encode_utf8(s@) == b@);
                Some(s.to_owned())
            },
            Err(_) => {
                assert(false);
                None
            },
        },
        Err(_) => {
            assert(false);
            None
        },
    }
}

/// What keeps a mirror from being read: it is not registered, or not
/// ready.
pub open spec fn refusal(c: CacheView, mirror: Seq<char>) -> Option<u16> {
    match c.slot(mirror) {
        None => Some(404),
        Some(s) => if s.status is Ready {
            None
        } else {
            Some(503)
        },
    }
}

/// Whether a mirror can be read, or with which status it is refused.
pub fn resolve_mirror(cache: &CacheState, mirror: &str) -> (r: Result<(), u16>)
    requires
        cache.wf(),
    ensures
        match refusal(cache@, mirror@) {
            None => r is Ok,
            Some(s) => r == Err::<(), u16>(s),
        },
        r is Ok <==> cache@.mirrors.dom().contains(mirror@) && cache@.mirrors[mirror@].status is Ready,
        !cache@.mirrors.dom().contains(mirror@) ==> r == Err::<(), u16>(404),
        cache@.mirrors.dom().contains(mirror@) && r is Err ==> r == Err::<(), u16>(503),
{
    match cache.status_for(mirror) {
        None => Err(404),
        Some(_) => if cache.is_mirror_ready(mirror) {
            Ok(())
        } else {
            Err(503)
        },
    }
}

/// The value of a key.
pub fn raw_by_key(cache: &CacheState, mirror: &str, key: &str) -> (r: HttpResponse)
    requires
        cache.wf(),
    ensures
        match refusal(cache@, mirror@) {
            Some(status) => r.is_bare(status),
            None => {
                let s = cache@.slot(mirror@)->0;
                if key@.len() == 0 {
                    r.is_bare(400)
                } else {
                    match lookup(s.entries, key@) {
                        None => r.is_bare(404),
                        Some(v) => r.is_read(s, "application/octet-stream"@, v),
                    }
                }
            },
        },
{
    if let Err(status) = resolve_mirror(cache, mirror) {
        return HttpResponse::bare(status);
    }
    if key.is_empty() {
        return HttpResponse::bare(400);
    }
    match cache.get_value_for(mirror, key) {
        None => HttpResponse::bare(404),
        Some(body) => HttpResponse {
            status: 200,
            content_type: Some("application/octet-stream".to_owned()),
            offsets: offsets_header_for(cache, mirror),
            body,
        },
    }
}

/// How far one partition was applied in a mirror, in decimal; nothing if
/// it was not seen. A mirror that is not ready answers too.
pub fn offset_for_partition(
    cache: &CacheState,
    mirror: &str,
    topic: &str,
    partition: u32,
) -> (r: HttpResponse)
    requires
        cache.wf(),
    ensures
        match cache@.slot(mirror@) {
            None => r.is_bare(404),
            Some(s) => if topic@.len() == 0 {
                r.is_bare(400)
            } else {
                &&& r.status == 200
                &&& r.content_type matches Some(t) && t@ == "text/plain; charset=utf-8"@
                &&& r.offsets is None
                &&& r.body@ == if s.offsets.dom().contains((topic@, partition)) {
                    encode_utf8(dec(s.offsets[(topic@, partition)] as nat))
                } else {
                    seq![]
                }
            },
        },
{
    if cache.status_for(mirror).is_none() {
        return HttpResponse::bare(404);
    }
    if topic.is_empty() {
        return HttpResponse::bare(400);
    }
    let body: Vec<u8> = match cache.get_offset_for(mirror, topic, partition) {
        Some(o) => decimal(o).as_str().as_bytes_vec(),
        None => {
            let none: Vec<u8> = Vec::new();
            assert(none@ =~= seq![]);
            none
        },
    };
    HttpResponse {
        status: 200,
        content_type: Some("text/plain; charset=utf-8".to_owned()),
        offsets: None,
        body,
    }
}

/// Texts, each ended by a line break.
pub open spec fn text_lines(t: Seq<Seq<char>>) -> Seq<u8>
    decreases t.len(),
{
    if t.len() == 0 {
        seq![]
    } else {
        text_lines(t.drop_last()) + encode_utf8(t.last()) + seq![10u8]
    }
}

/// Byte strings, each ended by a line break.
pub open spec fn byte_lines(t: Seq<Seq<u8>>) -> Seq<u8>
    decreases t.len(),
{
    if t.len() == 0 {
        seq![]
    } else {
        byte_lines(t.drop_last()) + t.last() + seq![10u8]
    }
}

/// The keys of a mirror, one per line, in the order they first came.
pub fn keys(cache: &CacheState, mirror: &str) -> (r: HttpResponse)
    requires
        cache.wf(),
    ensures
        match refusal(cache@, mirror@) {
            Some(status) => r.is_bare(status),
            None => {
                let s = cache@.slot(mirror@)->0;
                r.is_read(
                    s,
                    "application/octet-stream"@,
                    text_lines(s.entries.map_values(|e: (Seq<char>, Seq<u8>)| e.0)),
                )
            },
        },
{
    if let Err(status) = resolve_mirror(cache, mirror) {
        return HttpResponse::bare(status);
    }
    let snapshot = match cache.snapshot_keys_for(mirror) {
        Some(v) => v,
        None => {
            assert(false);
            return HttpResponse::bare(404);
        },
    };
    let ghost all = snapshot@.map_values(|k: String| k@);
    let mut body: Vec<u8> = Vec::new();
    let mut i: usize = 0;
    assert(all.take(0) =~= seq![]);
    while i < snapshot.len()
        invariant
            i <= snapshot.len(),
            all == snapshot@.map_values(|k: String| k@),
            body@ == text_lines(all.take(i as int)),
        decreases snapshot.len() - i,
    {
        proof {
            assert(all.take(i + 1).drop_last() =~= all.take(i as int));
            assert(all.take(i + 1).last() == snapshot@[i as int]@);
        }
        let mut line = snapshot[i].as_str().as_bytes_vec();
        body.append(&mut line);
        body.push(10);
        assert(body@ =~= text_lines(all.take(i + 1)));
        i += 1;
    }
    assert(all.take(i as int) =~= all);
    HttpResponse {
        status: 200,
        content_type: Some("application/octet-stream".to_owned()),
        offsets: offsets_header_for(cache, mirror),
        body,
    }
}

/// The values of a mirror, one per line, in the order of its keys.
pub fn values(cache: &CacheState, mirror: &str) -> (r: HttpResponse)
    requires
        cache.wf(),
    ensures
        match refusal(cache@, mirror@) {
            Some(status) => r.is_bare(status),
            None => {
                let s = cache@.slot(mirror@)->0;
                r.is_read(
                    s,
                    "text/plain; charset=utf-8"@,
                    byte_lines(s.entries.map_values(|e: (Seq<char>, Seq<u8>)| e.1)),
                )
            },
        },
{
    if let Err(status) = resolve_mirror(cache, mirror) {
        return HttpResponse::bare(status);
    }
    let snapshot = match cache.snapshot_values_for(mirror) {
        Some(v) => v,
        None => {
            assert(false);
            return HttpResponse::bare(404);
        },
    };
    let ghost all = snapshot@.map_values(|v: Vec<u8>| v@);
    let mut body: Vec<u8> = Vec::new();
    assert(all.take(0) =~= seq![]);
    for v in it: snapshot
        invariant
            it.seq() == snapshot@,
            all == snapshot@.map_values(|v: Vec<u8>| v@),
            body@ == byte_lines(all.take(it.index())),
    {
        proof {
            assert(all.take(it.index() + 1).drop_last() =~= all.take(it.index()));
            assert(all.take(it.index() + 1).last() == v@);
        }
        let mut line = v;
        body.append(&mut line);
        body.push(10);
        assert(body@ =~= byte_lines(all.take(it.index() + 1)));
    }
    assert(all.take(all.len() as int) =~= all);
    HttpResponse {
        status: 200,
        content_type: Some("text/plain; charset=utf-8".to_owned()),
        offsets: offsets_header_for(cache, mirror),
        body,
    }
}

/// Whether every mirror can be read.
pub fn ready(cache: &CacheState) -> (r: HttpResponse)
    requires
        cache.wf(),
    ensures
        r.is_bare(
            if cache@.mirrors.dom() != Set::<Seq<char>>::empty() && forall|n: Seq<char>| #[trigger]
                cache@.mirrors.dom().contains(n) ==> cache@.mirrors[n].status is Ready {
                200
            } else {
                503
            },
        ),
{
    if cache.is_ready() {
        HttpResponse::bare(200)
    } else {
        HttpResponse::bare(503)
    }
}

/// A request to the read interface. Without a mirror's name the main
/// mirror is meant.
#[derive(Debug)]
pub enum ReadRequest {
    Raw { mirror: Option<String>, key: String },
    Offset { mirror: Option<String>, topic: String, partition: u32 },
    Keys { mirror: Option<String> },
    Values { mirror: Option<String> },
    Ready,
}

/// The mirror that a request means.
pub open spec fn meant(c: CacheView, mirror: Option<String>) -> Option<Seq<char>> {
    match mirror {
        Some(m) => Some(m@),
        None => c.main,
    }
}

fn meant_mirror(cache: &CacheState, mirror: &Option<String>) -> (r: Option<String>)
    requires
        cache.wf(),
    ensures
        r is Some <==> meant(cache@, *mirror) is Some,
        r matches Some(m) ==> meant(cache@, *mirror) == Some(m@),
{
    match mirror {
        Some(m) => Some(m.clone()),
        None => cache.main_mirror(),
    }
}

/// Whether `r` is the answer to a request, given the contents of the
/// cache. A request without a mirror's name is not found where there is no
/// main mirror; else it is answered as the same request under the main
/// mirror's name.
pub open spec fn answers(c: CacheView, request: ReadRequest, r: HttpResponse) -> bool {
    match request {
        ReadRequest::Raw { mirror, key } => match meant(c, mirror) {
            None => r.is_bare(404),
            Some(m) => match refusal(c, m) {
                Some(status) => r.is_bare(status),
                None => if key@.len() == 0 {
                    r.is_bare(400)
                } else {
                    match lookup(c.slot(m)->0.entries, key@) {
                        None => r.is_bare(404),
                        Some(v) => r.is_read(
                            c.slot(m)->0,
                            "application/octet-stream"@,
                            v,
                        ),
                    }
                },
            },
        },
        ReadRequest::Offset { mirror, topic, partition } => match meant(c, mirror) {
            None => r.is_bare(404),
            Some(m) => match c.slot(m) {
                None => r.is_bare(404),
                Some(s) => if topic@.len() == 0 {
                    r.is_bare(400)
                } else {
                    &&& r.status == 200
                    &&& r.content_type matches Some(t) && t@
                        == "text/plain; charset=utf-8"@
                    &&& r.offsets is None
                    &&& r.body@ == if s.offsets.dom().contains((topic@, partition)) {
                        encode_utf8(dec(s.offsets[(topic@, partition)] as nat))
                    } else {
                        seq![]
                    }
                },
            },
        },
        ReadRequest::Keys { mirror } => match meant(c, mirror) {
            None => r.is_bare(404),
            Some(m) => match refusal(c, m) {
                Some(status) => r.is_bare(status),
                None => r.is_read(
                    c.slot(m)->0,
                    "application/octet-stream"@,
                    text_lines(
                        c.slot(m)->0.entries.map_values(
                            |e: (Seq<char>, Seq<u8>)| e.0,
                        ),
                    ),
                ),
            },
        },
        ReadRequest::Values { mirror } => match meant(c, mirror) {
            None => r.is_bare(404),
            Some(m) => match refusal(c, m) {
                Some(status) => r.is_bare(status),
                None => r.is_read(
                    c.slot(m)->0,
                    "text/plain; charset=utf-8"@,
                    byte_lines(
                        c.slot(m)->0.entries.map_values(
                            |e: (Seq<char>, Seq<u8>)| e.1,
                        ),
                    ),
                ),
            },
        },
        ReadRequest::Ready => if c.mirrors.dom() != Set::<Seq<char>>::empty() && forall|
            n: Seq<char>,
        | #[trigger]
            c.mirrors.dom().contains(n) ==> c.mirrors[n].status is Ready {
            r.is_bare(200)
        } else {
            r.is_bare(503)
        },
    }
}

/// Answer a request. One without a mirror's name is not found where there
/// is no main mirror; else it is answered as the same request under the
/// main mirror's name.
pub fn respond(cache: &CacheState, request: &ReadRequest) -> (r: HttpResponse)
    requires
        cache.wf(),
    ensures
        ({
            let c = cache@;
            match *request {
                ReadRequest::Raw { mirror, key } => match meant(c, mirror) {
                    None => r.is_bare(404),
                    Some(m) => match refusal(c, m) {
                        Some(status) => r.is_bare(status),
                        None => if key@.len() == 0 {
                            r.is_bare(400)
                        } else {
                            match lookup(c.slot(m)->0.entries, key@) {
                                None => r.is_bare(404),
                                Some(v) => r.is_read(
                                    c.slot(m)->0,
                                    "application/octet-stream"@,
                                    v,
                                ),
                            }
                        },
                    },
                },
                ReadRequest::Offset { mirror, topic, partition } => match meant(c, mirror) {
                    None => r.is_bare(404),
                    Some(m) => match c.slot(m) {
                        None => r.is_bare(404),
                        Some(s) => if topic@.len() == 0 {
                            r.is_bare(400)
                        } else {
                            &&& r.status == 200
                            &&& r.content_type matches Some(t) && t@
                                == "text/plain; charset=utf-8"@
                            &&& r.offsets is None
                            &&& r.body@ == if s.offsets.dom().contains((topic@, partition)) {
                                encode_utf8(dec(s.offsets[(topic@, partition)] as nat))
                            } else {
                                seq![]
                            }
                        },
                    },
                },
                ReadRequest::Keys { mirror } => match meant(c, mirror) {
                    None => r.is_bare(404),
                    Some(m) => match refusal(c, m) {
                        Some(status) => r.is_bare(status),
                        None => r.is_read(
                            c.slot(m)->0,
                            "application/octet-stream"@,
                            text_lines(
                                c.slot(m)->0.entries.map_values(
                                    |e: (Seq<char>, Seq<u8>)| e.0,
                                ),
                            ),
                        ),
                    },
                },
                ReadRequest::Values { mirror } => match meant(c, mirror) {
                    None => r.is_bare(404),
                    Some(m) => match refusal(c, m) {
                        Some(status) => r.is_bare(status),
                        None => r.is_read(
                            c.slot(m)->0,
                            "text/plain; charset=utf-8"@,
                            byte_lines(
                                c.slot(m)->0.entries.map_values(
                                    |e: (Seq<char>, Seq<u8>)| e.1,
                                ),
                            ),
                        ),
                    },
                },
                ReadRequest::Ready => r.is_bare(200) || r.is_bare(503),
            }
        }),
        *request is Ready ==> (r.is_bare(200) <==> cache@.mirrors.dom() != Set::<
            Seq<char>,
        >::empty() && forall|n: Seq<char>| #[trigger]
            cache@.mirrors.dom().contains(n) ==> cache@.mirrors[n].status is Ready),
        answers(cache@, *request, r),
{
    match request {
        ReadRequest::Raw { mirror, key } => match meant_mirror(cache, mirror) {
            None => HttpResponse::bare(404),
            Some(m) => raw_by_key(cache, m.as_str(), key.as_str()),
        },
        ReadRequest::Offset { mirror, topic, partition } => match meant_mirror(cache, mirror) {
            None => HttpResponse::bare(404),
            Some(m) => offset_for_partition(cache, m.as_str(), topic.as_str(), *partition),
        },
        ReadRequest::Keys { mirror } => match meant_mirror(cache, mirror) {
            None => HttpResponse::bare(404),
            Some(m) => keys(cache, m.as_str()),
        },
        ReadRequest::Values { mirror } => match meant_mirror(cache, mirror) {
            None => HttpResponse::bare(404),
            Some(m) => values(cache, m.as_str()),
        },
        ReadRequest::Ready => ready(cache),
    }
}

} // verus!
