use crate::errors::Error;
use crate::wire::{append_u64, read_u64_at};
use vstd::bytes::*;
use vstd::prelude::*;
use vstd::utf8::{
    decode_utf8, encode_utf8, encode_utf8_decode_utf8, encode_utf8_valid_utf8, valid_utf8,
};

verus! {

/// Greatest number of bytes an encoded record may occupy.
pub const JOB_MAX_ENCODED_SIZE: usize = 1024;

/// A job posting as the registry stores it.
#[derive(Clone, Debug, PartialEq)]
pub struct Job {
    pub id: u64,
    pub title: String,
    pub description: String,
    pub skills_required: Vec<String>,
    pub created_at: u64,
}

/// The caller-supplied fields of a job, before an id and a creation time
/// are assigned.
#[derive(Clone, Debug, PartialEq)]
pub struct JobPayload {
    pub title: String,
    pub description: String,
    pub skills_required: Vec<String>,
}

/// Mathematical image of a `Job`.
pub ghost struct JobV {
    pub id: u64,
    pub title: Seq<char>,
    pub description: Seq<char>,
    pub skills_required: Seq<Seq<char>>,
    pub created_at: u64,
}

impl View for Job {
    type V = JobV;

    open spec fn view(&self) -> JobV {
        JobV {
            id: self.id,
            title: self.title@,
            description: self.description@,
            skills_required: self.skills_required.deep_view(),
            created_at: self.created_at,
        }
    }
}

/// Mathematical image of a `JobPayload`.
pub ghost struct JobPayloadV {
    pub title: Seq<char>,
    pub description: Seq<char>,
    pub skills_required: Seq<Seq<char>>,
}

impl View for JobPayload {
    type V = JobPayloadV;

    open spec fn view(&self) -> JobPayloadV {
        JobPayloadV {
            title: self.title@,
            description: self.description@,
            skills_required: self.skills_required.deep_view(),
        }
    }
}

/// A declared size policy: every encoding is exactly `Fixed` bytes long, or
/// at most `Bounded` bytes long.
#[derive(Clone, Copy, Debug, PartialEq, Eq)]
pub enum SizeBound {
    Fixed(u64),
    Bounded(u64),
}

/// Enforces a size policy on an encoding's length.
pub fn check_size(len: usize, bound: &SizeBound) -> (res: Result<(), Error>)
    ensures
        res is Ok <==> (match *bound {
            SizeBound::Fixed(n) => len == n,
            SizeBound::Bounded(n) => len <= n,
        }),
        res matches Err(e) ==> e == (match *bound {
            SizeBound::Fixed(_) => Error::SizeMismatch,
            SizeBound::Bounded(_) => Error::SizeExceeded,
        }),
{
    match bound {
        SizeBound::Fixed(n) => {
            if len as u64 == *n && *n <= usize::MAX as u64 {
                Ok(())
            } else {
                Err(Error::SizeMismatch)
            }
        },
        SizeBound::Bounded(n) => {
            if len as u64 <= *n {
                Ok(())
            } else {
                Err(Error::SizeExceeded)
            }
        },
    }
}

// The wire format, front to back: id, creation time, title, description,
// skill count, then each skill. Integers are eight little-endian bytes; a
// string is its UTF-8 byte length, eight little-endian bytes, followed by
// its UTF-8 bytes.

/// Encoding of one string.
pub open spec fn enc_str(s: Seq<char>) -> Seq<u8> {
    spec_u64_to_le_bytes(encode_utf8(s).len() as u64) + encode_utf8(s)
}

/// Encoding of a sequence of strings, back to back.
pub open spec fn enc_str_seq(ss: Seq<Seq<char>>) -> Seq<u8>
    decreases ss.len(),
{
    if ss.len() == 0 {
        Seq::empty()
    } else {
        enc_str(ss[0]) + enc_str_seq(ss.drop_first())
    }
}

/// The encoding of a record.
pub open spec fn spec_encode_job(j: JobV) -> Seq<u8> {
    spec_u64_to_le_bytes(j.id) + spec_u64_to_le_bytes(j.created_at) + enc_str(j.title) + enc_str(
        j.description,
    ) + spec_u64_to_le_bytes(j.skills_required.len() as u64) + enc_str_seq(j.skills_required)
}

/// A string whose length prefix fits its field.
pub open spec fn str_wf(s: Seq<char>) -> bool {
    encode_utf8(s).len() <= u64::MAX
}

/// A record the codec can faithfully encode.
pub open spec fn job_v_wf(j: JobV) -> bool {
    &&& str_wf(j.title)
    &&& str_wf(j.description)
    &&& j.skills_required.len() <= u64::MAX
    &&& forall|i: int| 0 <= i < j.skills_required.len() ==> str_wf(#[trigger] j.skills_required[i])
}

/// Reads an integer at `pos`, yielding it and the next position.
pub open spec fn dec_u64_at(b: Seq<u8>, pos: int) -> Option<(u64, int)> {
    if 0 <= pos && pos + 8 <= b.len() {
        Some((spec_u64_from_le_bytes(b.subrange(pos, pos + 8)), pos + 8))
    } else {
        None
    }
}

/// Reads one string at `pos`, yielding it and the next position.
pub open spec fn dec_str_at(b: Seq<u8>, pos: int) -> Option<(Seq<char>, int)> {
    match dec_u64_at(b, pos) {
        Option::None => Option::None,
        Option::Some((n, p1)) => {
            if p1 + n <= b.len() && valid_utf8(b.subrange(p1, p1 + n)) {
                Some((decode_utf8(b.subrange(p1, p1 + n)), p1 + n))
            } else {
                None
            }
        },
    }
}

/// Reads `n` strings at `pos`, yielding them and the next position.
pub open spec fn dec_str_seq_at(b: Seq<u8>, pos: int, n: nat) -> Option<(Seq<Seq<char>>, int)>
    decreases n,
{
    if n == 0 {
        Some((Seq::empty(), pos))
    } else {
        match dec_str_at(b, pos) {
            Option::None => Option::None,
            Option::Some((s, p1)) => {
                match dec_str_seq_at(b, p1, (n - 1) as nat) {
                    Option::None => Option::None,
                    Option::Some((ss, p2)) => Some((seq![s] + ss, p2)),
                }
            },
        }
    }
}

/// The record a byte sequence encodes, if it is a well-formed encoding
/// that occupies the whole sequence.
pub open spec fn spec_decode_job(b: Seq<u8>) -> Option<JobV> {
    match dec_u64_at(b, 0) {
        Option::None => Option::None,
        Option::Some((id, p1)) => match dec_u64_at(b, p1) {
            Option::None => Option::None,
            Option::Some((created_at, p2)) => match dec_str_at(b, p2) {
                Option::None => Option::None,
                Option::Some((title, p3)) => match dec_str_at(b, p3) {
                    Option::None => Option::None,
                    Option::Some((description, p4)) => match dec_u64_at(b, p4) {
                        Option::None => Option::None,
                        Option::Some((count, p5)) => match dec_str_seq_at(b, p5, count as nat) {
                            Option::None => Option::None,
                            Option::Some((skills_required, p6)) => {
                                if p6 == b.len() {
                                    Some(
                                        JobV {
                                            id,
                                            title,
                                            description,
                                            skills_required,
                                            created_at,
                                        },
                                    )
                                } else {
                                    None
                                }
                            },
                        },
                    },
                },
            },
        },
    }
}

proof fn lemma_dec_u64_of_enc(b: Seq<u8>, pos: int, x: u64)
    requires
        0 <= pos,
        pos + 8 <= b.len(),
        b.subrange(pos, pos + 8) == spec_u64_to_le_bytes(x),
    ensures
        dec_u64_at(b, pos) == Some((x, pos + 8)),
{
    lemma_auto_spec_u64_to_from_le_bytes();
}

proof fn lemma_dec_str_of_enc(b: Seq<u8>, pos: int, s: Seq<char>)
    requires
        str_wf(s),
        0 <= pos,
        pos + enc_str(s).len() <= b.len(),
        b.subrange(pos, pos + enc_str(s).len() as int) == enc_str(s),
    ensures
        dec_str_at(b, pos) == Some((s, pos + enc_str(s).len() as int)),
{
    let u = encode_utf8(s);
    lemma_auto_spec_u64_to_from_le_bytes();
    let whole = b.subrange(pos, pos + enc_str(s).len() as int);
    assert forall|k: int| 0 <= k < 8 implies #[trigger] b.subrange(pos, pos + 8)[k]
        == spec_u64_to_le_bytes(u.len() as u64)[k] by {
        assert(b[pos + k] == whole[k]);
    }
    assert(b.subrange(pos, pos + 8) =~= spec_u64_to_le_bytes(u.len() as u64));
    lemma_dec_u64_of_enc(b, pos, u.len() as u64);
    assert forall|k: int| 0 <= k < u.len() implies b.subrange(pos + 8, pos + 8 + u.len() as int)[k]
        == u[k] by {
        assert(b[pos + 8 + k] == whole[8 + k]);
    }
    assert(b.subrange(pos + 8, pos + 8 + u.len() as int) =~= u);
    encode_utf8_valid_utf8(s);
    encode_utf8_decode_utf8(s);
}

proof fn lemma_dec_str_seq_of_enc(b: Seq<u8>, pos: int, ss: Seq<Seq<char>>)
    requires
        forall|i: int| 0 <= i < ss.len() ==> str_wf(#[trigger] ss[i]),
        0 <= pos,
        pos + enc_str_seq(ss).len() <= b.len(),
        b.subrange(pos, pos + enc_str_seq(ss).len() as int) == enc_str_seq(ss),
    ensures
        dec_str_seq_at(b, pos, ss.len()) == Some((ss, pos + enc_str_seq(ss).len() as int)),
    decreases ss.len(),
{
    if ss.len() == 0 {
        assert(dec_str_seq_at(b, pos, 0) == Some((Seq::<Seq<char>>::empty(), pos)));
        assert(ss =~= Seq::<Seq<char>>::empty());
    } else {
        let head = ss[0];
        let rest = ss.drop_first();
        let e0 = enc_str(head);
        let er = enc_str_seq(rest);
        let whole = b.subrange(pos, pos + enc_str_seq(ss).len() as int);
        assert(enc_str_seq(ss) == e0 + er);
        assert forall|k: int| 0 <= k < e0.len() implies b.subrange(pos, pos + e0.len() as int)[k]
            == e0[k] by {
            assert(b[pos + k] == whole[k]);
        }
        assert(b.subrange(pos, pos + e0.len() as int) =~= e0);
        lemma_dec_str_of_enc(b, pos, head);
        let p1 = pos + e0.len() as int;
        assert forall|k: int| 0 <= k < er.len() implies b.subrange(p1, p1 + er.len() as int)[k]
            == er[k] by {
            assert(b[pos + e0.len() + k] == whole[e0.len() + k]);
        }
        assert(b.subrange(p1, p1 + er.len() as int) =~= er);
        lemma_dec_str_seq_of_enc(b, p1, rest);
        assert(seq![head] + rest =~= ss);
    }
}

/// Round-trip law: decoding the encoding of any well-formed record yields
/// that record again.
pub proof fn lemma_job_round_trip(j: JobV)
    requires
        job_v_wf(j),
    ensures
        spec_decode_job(spec_encode_job(j)) == Some(j),
{
    let b = spec_encode_job(j);
    lemma_auto_spec_u64_to_from_le_bytes();
    let t0 = spec_u64_to_le_bytes(j.id);
    let t1 = spec_u64_to_le_bytes(j.created_at);
    let t2 = enc_str(j.title);
    let t3 = enc_str(j.description);
    let t4 = spec_u64_to_le_bytes(j.skills_required.len() as u64);
    let t5 = enc_str_seq(j.skills_required);
    let p1 = t0.len() as int;
    let p2 = p1 + t1.len() as int;
    let p3 = p2 + t2.len() as int;
    let p4 = p3 + t3.len() as int;
    let p5 = p4 + t4.len() as int;
    let p6 = p5 + t5.len() as int;
    assert(b.len() == p6);
    assert(b.subrange(0, 8) =~= t0);
    lemma_dec_u64_of_enc(b, 0, j.id);
    assert(b.subrange(p1, p1 + 8) =~= t1);
    lemma_dec_u64_of_enc(b, p1, j.created_at);
    assert(b.subrange(p2, p2 + t2.len() as int) =~= t2);
    lemma_dec_str_of_enc(b, p2, j.title);
    assert(b.subrange(p3, p3 + t3.len() as int) =~= t3);
    lemma_dec_str_of_enc(b, p3, j.description);
    assert(b.subrange(p4, p4 + 8) =~= t4);
    lemma_dec_u64_of_enc(b, p4, j.skills_required.len() as u64);
    assert(b.subrange(p5, p5 + t5.len() as int) =~= t5);
    lemma_dec_str_seq_of_enc(b, p5, j.skills_required);
}

proof fn lemma_enc_str_seq_snoc(ss: Seq<Seq<char>>, s: Seq<char>)
    ensures
        enc_str_seq(ss.push(s)) == enc_str_seq(ss) + enc_str(s),
    decreases ss.len(),
{
    if ss.len() == 0 {
        assert(ss.push(s)[0] == s);
        assert(ss.push(s).drop_first() =~= Seq::<Seq<char>>::empty());
        assert(enc_str_seq(Seq::<Seq<char>>::empty()) == Seq::<u8>::empty());
        assert(enc_str_seq(ss.push(s)) == enc_str(s) + Seq::<u8>::empty());
        assert(ss =~= Seq::<Seq<char>>::empty());
        assert(enc_str_seq(ss.push(s)) =~= enc_str_seq(ss) + enc_str(s));
    } else {
        let a = enc_str(ss[0]);
        let mid = enc_str_seq(ss.drop_first());
        let c = enc_str(s);
        assert(ss.push(s).drop_first() =~= ss.drop_first().push(s));
        lemma_enc_str_seq_snoc(ss.drop_first(), s);
        assert(ss.push(s)[0] == ss[0]);
        assert(enc_str_seq(ss.push(s)) == a + (mid + c));
        assert(a + (mid + c) =~= (a + mid) + c);
    }
}

/// Relies on `String::from_utf8`: it succeeds exactly on input that is
/// valid UTF-8 and returns the string those bytes encode.
#[verifier::external_body]
fn string_from_utf8(bytes: Vec<u8>) -> (r: Option<String>)
    ensures
        r is Some <==> valid_utf8(bytes@),
        r matches Some(s) ==> s@ == decode_utf8(bytes@),
{
    String::from_utf8(bytes).ok()
}

fn append_str(out: &mut Vec<u8>, s: &String)
    ensures
        final(out)@ == old(out)@ + enc_str(s@),
        str_wf(s@),
{
    let bytes = s.as_str().as_bytes();
    let n = bytes.len();
    append_u64(out, n as u64);
    let ghost mid = out@;
    let mut i: usize = 0;
    while i < n
        invariant
            i <= n,
            n == bytes@.len(),
            bytes@ == encode_utf8(s@),
            out@ == mid + bytes@.subrange(0, i as int),
        decreases n - i,
    {
        out.push(bytes[i]);
        proof {
            assert(out@ =~= mid + bytes@.subrange(0, i as int + 1));
        }
        i = i + 1;
    }
    proof {
        assert(out@ =~= old(out)@ + enc_str(s@));
    }
}

pub(crate) fn read_u64_checked(bytes: &Vec<u8>, pos: usize) -> (res: Option<(u64, usize)>)
    ensures
        res is Some <==> dec_u64_at(bytes@, pos as int) is Some,
        res matches Some((x, p)) ==> dec_u64_at(bytes@, pos as int) == Some((x, p as int)),
{
    if pos <= bytes.len() && bytes.len() - pos >= 8 {
        Some((read_u64_at(bytes, pos), pos + 8))
    } else {
        None
    }
}

fn read_str_checked(bytes: &Vec<u8>, pos: usize) -> (res: Option<(String, usize)>)
    ensures
        res is Some <==> dec_str_at(bytes@, pos as int) is Some,
        res matches Some(pair) ==> dec_str_at(bytes@, pos as int) == Some((pair.0@, pair.1 as int)),
{
    match read_u64_checked(bytes, pos) {
        Option::None => None,
        Option::Some((n64, p1)) => {
            if n64 > (bytes.len() - p1) as u64 {
                return None;
            }
            let n = n64 as usize;
            let blen = bytes.len();
            let mut sub: Vec<u8> = Vec::new();
            let mut i: usize = 0;
            while i < n
                invariant
                    i <= n,
                    blen == bytes@.len(),
                    p1 + n <= blen,
                    sub@ == bytes@.subrange(p1 as int, p1 as int + i as int),
                decreases n - i,
            {
                sub.push(bytes[p1 + i]);
                proof {
                    assert(sub@ =~= bytes@.subrange(p1 as int, p1 as int + i as int + 1));
                }
                i = i + 1;
            }
            match string_from_utf8(sub) {
                Option::None => None,
                Option::Some(s) => Some((s, p1 + n)),
            }
        },
    }
}

impl Job {
    /// The declared size bound for encoded records: variable size, at most
    /// `JOB_MAX_ENCODED_SIZE` bytes.
    pub fn bound() -> (res: SizeBound)
        ensures
            res == SizeBound::Bounded(JOB_MAX_ENCODED_SIZE as u64),
    {
        SizeBound::Bounded(JOB_MAX_ENCODED_SIZE as u64)
    }

    /// Encodes the record in the stable wire format.
    #[verifier::loop_isolation(false)]
    pub fn to_bytes(&self) -> (res: Vec<u8>)
        ensures
            res@ == spec_encode_job(self@),
            job_v_wf(self@),
    {
        let mut out: Vec<u8> = Vec::new();
        append_u64(&mut out, self.id);
        append_u64(&mut out, self.created_at);
        append_str(&mut out, &self.title);
        append_str(&mut out, &self.description);
        let k = self.skills_required.len();
        append_u64(&mut out, k as u64);
        let ghost mid = out@;
        let ghost skills = self.skills_required.deep_view();
        proof {
            assert(skills.len() == self.skills_required@.len());
        }
        let mut i: usize = 0;
        while i < k
            invariant
                i <= k,
                k == self.skills_required@.len(),
                skills == self.skills_required.deep_view(),
                skills.len() == k,
                out@ == mid + enc_str_seq(skills.take(i as int)),
                forall|q: int| 0 <= q < i ==> str_wf(#[trigger] skills[q]),
            decreases k - i,
        {
            append_str(&mut out, &self.skills_required[i]);
            proof {
                assert(self.skills_required[i as int]@ == skills[i as int]);
                lemma_enc_str_seq_snoc(skills.take(i as int), skills[i as int]);
                assert(skills.take(i as int).push(skills[i as int]) =~= skills.take(i as int + 1));
            }
            i = i + 1;
        }
        proof {
            assert(skills.take(k as int) =~= skills);
            assert(out@ =~= spec_encode_job(self@));
        }
        out
    }

    /// Encodes the record and enforces the declared size bound; a record
    /// whose encoding is too large is rejected and nothing is written.
    pub fn to_bytes_checked(&self) -> (res: Result<Vec<u8>, Error>)
        ensures
            res is Ok <==> spec_encode_job(self@).len() <= JOB_MAX_ENCODED_SIZE,
            res matches Ok(v) ==> v@ == spec_encode_job(self@) && v@.len()
                <= JOB_MAX_ENCODED_SIZE,
            res matches Err(e) ==> e == Error::SizeExceeded,
            job_v_wf(self@),
    {
        let out = self.to_bytes();
        match check_size(out.len(), &Job::bound()) {
            Ok(()) => Ok(out),
            Err(e) => Err(e),
        }
    }

    /// Decodes a record from its wire format; bytes that do not parse as a
    /// whole well-formed record are rejected as `CorruptEncoding`.
    #[verifier::loop_isolation(false)]
    pub fn from_bytes(bytes: &Vec<u8>) -> (res: Result<Job, Error>)
        ensures
            res is Ok <==> spec_decode_job(bytes@) is Some,
            res matches Ok(j) ==> spec_decode_job(bytes@) == Some(j@),
            res matches Err(e) ==> e == Error::CorruptEncoding,
    {
        let (id, p1) = match read_u64_checked(bytes, 0) {
            Option::Some(x) => x,
            Option::None => {
                return Err(Error::CorruptEncoding);
            },
        };
        let (created_at, p2) = match read_u64_checked(bytes, p1) {
            Option::Some(x) => x,
            Option::None => {
                return Err(Error::CorruptEncoding);
            },
        };
        let (title, p3) = match read_str_checked(bytes, p2) {
            Option::Some(x) => x,
            Option::None => {
                return Err(Error::CorruptEncoding);
            },
        };
        let (description, p4) = match read_str_checked(bytes, p3) {
            Option::Some(x) => x,
            Option::None => {
                return Err(Error::CorruptEncoding);
            },
        };
        let (count, p5) = match read_u64_checked(bytes, p4) {
            Option::Some(x) => x,
            Option::None => {
                return Err(Error::CorruptEncoding);
            },
        };
        let mut skills: Vec<String> = Vec::new();
        let mut pos = p5;
        let mut i: u64 = 0;
        while i < count
            invariant
                i <= count,
                skills.deep_view().len() == i,
                (match dec_str_seq_at(bytes@, pos as int, (count - i) as nat) {
                    Option::Some(pair) => dec_str_seq_at(bytes@, p5 as int, count as nat) == Some(
                        (skills.deep_view() + pair.0, pair.1),
                    ),
                    Option::None => dec_str_seq_at(bytes@, p5 as int, count as nat) is None,
                }),
            decreases count - i,
        {
            let ghost pre = skills.deep_view();
            let (s, p) = match read_str_checked(bytes, pos) {
                Option::Some(x) => x,
                Option::None => {
                    return Err(Error::CorruptEncoding);
                },
            };
            skills.push(s);
            proof {
                assert(skills.deep_view() =~= pre.push(s@));
                match dec_str_seq_at(bytes@, p as int, (count - i - 1) as nat) {
                    Option::Some(pair) => {
                        assert(dec_str_seq_at(bytes@, pos as int, (count - i) as nat) == Some(
                            (seq![s@] + pair.0, pair.1),
                        ));
                        assert(pre.push(s@) + pair.0 =~= pre + (seq![s@] + pair.0));
                    },
                    Option::None => {},
                }
            }
            pos = p;
            i = i + 1;
        }
        proof {
            assert(dec_str_seq_at(bytes@, pos as int, 0) == Some(
                (Seq::<Seq<char>>::empty(), pos as int),
            ));
            assert(skills.deep_view() + Seq::<Seq<char>>::empty() =~= skills.deep_view());
        }
        if pos != bytes.len() {
            return Err(Error::CorruptEncoding);
        }
        let job = Job { id, title, description, skills_required: skills, created_at };
        Ok(job)
    }
}

} // verus!
