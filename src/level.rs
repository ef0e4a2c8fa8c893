use vstd::prelude::*;
use vstd::string::*;
use crate::errors::Error;
use crate::kv::{
    deserialise_kv, join_text, kv_text_map, pair_tokens, pairs_map, serialise_kv, split_on,
    split_text, KvMap,
};
use crate::object::{decodes_to, object_fault, object_record, LevelObject};
use crate::text::push_text;
use crate::zip::{base64_of, gunzip_of, is_base64_text, unzip_string, zip_string, zipped_text};

verus! {

/// The decoded object string of a level: a header record and the objects.
#[derive(Debug)]
pub struct ObjectList {
    pub header: KvMap,
    pub objects: Vec<LevelObject>,
}

/// The pieces of a text that ends each piece with `;`: a last empty piece
/// is no piece.
pub open spec fn segments(text: Seq<char>) -> Seq<Seq<char>> {
    let p = split_text(text, ";"@);
    if p.len() > 0 && p.last().len() == 0 {
        p.drop_last()
    } else {
        p
    }
}

/// The record that a segment holds.
pub open spec fn segment_record(seg: Seq<char>) -> Map<Seq<char>, Seq<char>> {
    kv_text_map(seg, ","@)
}

/// Whether a segment holds a record that decodes to an object.
pub open spec fn segment_decodes(seg: Seq<char>) -> bool {
    object_fault(segment_record(seg)) is None
}

/// The segments that decode, in order.
pub open spec fn decodable(segs: Seq<Seq<char>>) -> Seq<Seq<char>> {
    segs.filter(|seg: Seq<char>| segment_decodes(seg))
}

/// The object segments of a text that decode, in order.
pub open spec fn object_segments(text: Seq<char>) -> Seq<Seq<char>> {
    decodable(segments(text).drop_first())
}

proof fn lemma_decodable_push(segs: Seq<Seq<char>>, seg: Seq<char>)
    ensures
        decodable(segs.push(seg)) == if segment_decodes(seg) {
            decodable(segs).push(seg)
        } else {
            decodable(segs)
        },
{
    assert(segs.push(seg).drop_last() =~= segs);
    reveal_with_fuel(Seq::filter, 1);
}

/// Whether the text has a header: a first segment with at least one key.
pub open spec fn has_header(text: Seq<char>) -> bool {
    segments(text).len() > 0 && segment_record(segments(text)[0]) != Map::<
        Seq<char>,
        Seq<char>,
    >::empty()
}

/// Whether `l` is what a decompressed object text decodes to.
pub open spec fn list_of_text(text: Seq<char>, l: ObjectList) -> bool {
    &&& l.header.wf()
    &&& l.header.map() == segment_record(segments(text)[0])
    &&& objects_of(l.objects@, object_segments(text))
}

/// Whether each object is what the segment at its place decodes to.
pub open spec fn objects_of(objects: Seq<LevelObject>, segs: Seq<Seq<char>>) -> bool {
    &&& objects.len() == segs.len()
    &&& forall|i: int|
        0 <= i < objects.len() ==> #[trigger] objects[i].wf() && decodes_to(
            segment_record(segs[i]),
            objects[i],
        )
}

/// Whether `r` is the outcome of decoding a decompressed object text.
pub open spec fn text_gives(text: Seq<char>, r: Result<ObjectList, Error>) -> bool {
    match r {
        Ok(l) => has_header(text) && list_of_text(text, l) && l.wf(),
        Err(e) => !has_header(text) && e is MissingObjectHeader,
    }
}

/// Whether `r` is the outcome of framing an object text: the framed text,
/// or an I/O error where the encoder fails.
pub open spec fn framing_gives(t: Seq<char>, r: Result<String, Error>) -> bool {
    match zipped_text(t) {
        Some(z) => r is Ok && r->Ok_0@ == z,
        None => r is Err && r->Err_0 is Io,
    }
}

/// The pieces, each followed by `;`.
pub open spec fn terminated(pieces: Seq<Seq<char>>) -> Seq<char>
    decreases pieces.len(),
{
    if pieces.len() == 0 {
        Seq::empty()
    } else {
        terminated(pieces.drop_last()) + pieces.last() + ";"@
    }
}

/// The text of a record given as a sequence of entries.
pub open spec fn record_text(q: Seq<(Seq<char>, Seq<char>)>) -> Seq<char> {
    join_text(pair_tokens(q), ","@)
}

/// The texts of a header and object records given as entry sequences.
pub open spec fn list_pieces(
    header: Seq<(Seq<char>, Seq<char>)>,
    records: Seq<Seq<(Seq<char>, Seq<char>)>>,
) -> Seq<Seq<char>> {
    seq![record_text(header)] + Seq::new(records.len(), |i: int| record_text(records[i]))
}

/// The object text of a header and object records given as entry sequences.
pub open spec fn list_text_of(
    header: Seq<(Seq<char>, Seq<char>)>,
    records: Seq<Seq<(Seq<char>, Seq<char>)>>,
) -> Seq<char> {
    terminated(list_pieces(header, records))
}

/// Whether `text` writes the header and, in order, a record of each object:
/// each record's entries in some order.
pub open spec fn writes_list(text: Seq<char>, l: ObjectList) -> bool {
    exists|records: Seq<Seq<(Seq<char>, Seq<char>)>>|
        #![trigger list_text_of(l.header@, records)]
        records.len() == l.objects@.len() && (forall|i: int|
            0 <= i < records.len() ==> #[trigger] pairs_map(records[i]) == object_record(
                l.objects@[i],
            )) && text == list_text_of(l.header@, records)
}

impl ObjectList {
    /// Whether the header and every object are valid.
    pub open spec fn wf(&self) -> bool {
        &&& self.header.wf()
        &&& forall|i: int| 0 <= i < self.objects@.len() ==> (#[trigger] self.objects@[i]).wf()
    }

    /// Decodes a decompressed object text: the first segment is the header,
    /// which must have a key; each later segment that decodes is an object,
    /// and one that does not is left out.
    pub fn from_text(text: &str) -> (r: Result<ObjectList, Error>)
        ensures
            text_gives(text@, r),
    {
        let mut pieces = split_on(text, ";");
        let n0 = pieces.len();
        if n0 > 0 && pieces[n0 - 1].unicode_len() == 0 {
            pieces.pop();
        }
        let ghost segs = pieces@.map_values(|t: String| t@);
        assert(segs =~= segments(text@));
        let n = pieces.len();
        if n == 0 {
            return Err(Error::MissingObjectHeader);
        }
        let header = deserialise_kv(pieces[0].as_str(), ",");
        if header.is_empty() {
            return Err(Error::MissingObjectHeader);
        }
        let mut objects: Vec<LevelObject> = Vec::new();
        let mut i: usize = 1;
        while i < n
            invariant
                1 <= i <= n == pieces@.len(),
                segs == pieces@.map_values(|t: String| t@),
                segs == segments(text@),
                objects_of(objects@, decodable(segs.subrange(1, i as int))),
            decreases n - i,
        {
            let rec = deserialise_kv(pieces[i].as_str(), ",");
            proof {
                assert(segs.subrange(1, i + 1) =~= segs.subrange(1, i as int).push(segs[i as int]));
                lemma_decodable_push(segs.subrange(1, i as int), segs[i as int]);
            }
            let ghost old_objects = objects@;
            let ghost rm = rec.map();
            assert(rm == segment_record(segs[i as int]));
            match LevelObject::from_map(rec) {
                Ok(o) => {
                    objects.push(o);
                },
                Err(_) => {},
            }
            assert forall|j: int| 0 <= j < objects@.len() implies #[trigger] objects@[j].wf()
                && decodes_to(
                segment_record(decodable(segs.subrange(1, i + 1))[j]),
                objects@[j],
            ) by {
                if j < old_objects.len() {
                    assert(objects@[j] == old_objects[j]);
                    assert(old_objects[j].wf());
                }
            }
            assert(objects_of(objects@, decodable(segs.subrange(1, i + 1))));
            i = i + 1;
        }
        assert(segs.subrange(1, n as int) =~= segs.drop_first());
        let l = ObjectList { header, objects };
        assert(list_of_text(text@, l));
        Ok(l)
    }

    /// The object text: the header's record, then each object's record,
    /// each followed by `;`.
    pub fn text(&self) -> (r: String)
        requires
            self.wf(),
        ensures
            writes_list(r@, *self),
    {
        let mut out = serialise_kv(&self.header, ",");
        push_text(&mut out, ";");
        let ghost mut records: Seq<Seq<(Seq<char>, Seq<char>)>> = Seq::empty();
        proof {
            let ps = list_pieces(self.header@, records);
            assert(ps =~= seq![record_text(self.header@)]);
            assert(ps.drop_last() =~= Seq::<Seq<char>>::empty());
            assert(terminated(ps) == terminated(ps.drop_last()) + ps.last() + ";"@);
            assert(out@ =~= terminated(ps));
        }
        let mut i: usize = 0;
        while i < self.objects.len()
            invariant
                self.wf(),
                i <= self.objects@.len(),
                records.len() == i,
                forall|j: int|
                    0 <= j < i ==> #[trigger] pairs_map(records[j]) == object_record(
                        self.objects@[j],
                    ),
                out@ == list_text_of(self.header@, records),
            decreases self.objects@.len() - i,
        {
            assert(self.objects@[i as int].wf());
            let rec = self.objects[i].map();
            let piece = serialise_kv(&rec, ",");
            push_text(&mut out, piece.as_str());
            push_text(&mut out, ";");
            proof {
                let ps = list_pieces(self.header@, records);
                records = records.push(rec@);
                let ps2 = list_pieces(self.header@, records);
                assert(ps2 =~= ps.push(piece@));
                assert(ps2.drop_last() =~= ps);
            }
            i = i + 1;
        }
        out
    }

    /// Encodes the list as a framed object string.
    pub fn string(&self) -> (r: Result<String, Error>)
        requires
            self.wf(),
        ensures
            exists|t: Seq<char>| writes_list(t, *self) && #[trigger] framing_gives(t, r),
    {
        let text = self.text();
        let r = match zip_string(text.as_str()) {
            Ok(z) => Ok(z),
            Err(e) => Err(Error::from(e)),
        };
        assert(framing_gives(text@, r));
        r
    }

    /// Encodes the list as a framed object string, consuming it.
    pub fn into_string(self) -> (r: Result<String, Error>)
        requires
            self.wf(),
        ensures
            exists|t: Seq<char>| writes_list(t, self) && #[trigger] framing_gives(t, r),
    {
        self.string()
    }

    /// Decodes a framed object string: base64, then gzip, then the text as
    /// `from_text` reads it.
    pub fn from_str(object_str: &str) -> (r: Result<ObjectList, Error>)
        ensures
            !is_base64_text(object_str@) ==> r is Err && r->Err_0 is Base64,
            forall|b: Seq<u8>|
                object_str@ == #[trigger] base64_of(b) ==> match gunzip_of(b) {
                    Some(t) => text_gives(t, r),
                    None => r is Err && r->Err_0 is Io,
                },
    {
        match unzip_string(object_str) {
            Ok(text) => {
                let r = ObjectList::from_text(text.as_str());
                assert(text_gives(text@, r));
                r
            },
            Err(e) => Err(Error::from(e)),
        }
    }
}


/// The song a level plays: one of the game's own, or one from the server.
#[derive(Debug, Clone, Copy, PartialEq, Eq, Structural)]
pub enum Song {
    Official(u32),
    Custom(u32),
}

/// A level: its metadata, and its objects as the framed object string and,
/// once decoded, as a list.
#[derive(Debug)]
pub struct Level {
    pub name: String,
    pub description: String,
    pub object_str: String,
    pub object_list: Option<ObjectList>,
    pub song: Song,
    pub version: u32,
    pub length: u32,
    pub is_two_player: bool,
    pub object_count: u32,
    pub has_low_detail: bool,
}

} // verus!
