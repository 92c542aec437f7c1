use vstd::prelude::*;
use vstd::string::StringSliceAdditionalSpecFns;
use crate::kmp_search::occurs_at;

verus! {

/// The first position at or after `i` at which `pat` occurs in `hay`.
pub open spec fn first_from(hay: Seq<u8>, pat: Seq<u8>, i: int) -> Option<int>
    decreases hay.len() + 1 - i,
{
    if i < 0 || i + pat.len() > hay.len() {
        None
    } else if occurs_at(hay, pat, i) {
        Some(i)
    } else {
        first_from(hay, pat, i + 1)
    }
}

/// The end of the run of bytes of `buf` that starts at `i` and stops before the
/// first `sfx` (or at the end of `buf`).
pub open spec fn run_end(buf: Seq<u8>, i: int, sfx: u8) -> int
    decreases buf.len() - i,
{
    if i >= buf.len() || buf[i] == sfx {
        i
    } else {
        run_end(buf, i + 1, sfx)
    }
}

/// The number that the decimal digits `d` write, most significant first.
pub open spec fn decimal(d: Seq<u8>) -> int
    decreases d.len(),
{
    if d.len() == 0 {
        0
    } else {
        decimal(d.drop_last()) * 10 + (d.last() - 48)
    }
}

pub open spec fn all_digits(d: Seq<u8>) -> bool {
    forall|i: int| 0 <= i < d.len() ==> 48 <= #[trigger] d[i] <= 57
}

/// The `usize` that the text `d` reads as: an optional `+`, then one or more
/// decimal digits, of a value that fits.
pub open spec fn parse_usize(d: Seq<u8>) -> Option<int> {
    let body = if d.len() > 0 && d[0] == 43 { d.drop_first() } else { d };
    if body.len() > 0 && all_digits(body) && decimal(body) <= usize::MAX {
        Some(decimal(body))
    } else {
        None
    }
}

/// The number written in `buf` from `index` up to the byte `sfx`, and the
/// position just after that byte.
pub open spec fn pos_and_length(buf: Seq<u8>, index: int, sfx: u8) -> Option<(int, int)> {
    let e = run_end(buf, index, sfx);
    let digits = if index < buf.len() { buf.subrange(index, e) } else { Seq::empty() };
    match parse_usize(digits) {
        Some(v) => Some((e + 1, v)),
        None => None,
    }
}

proof fn lemma_first_skip(hay: Seq<u8>, pat: Seq<u8>, i: int)
    requires
        0 <= i,
        i + pat.len() <= hay.len(),
        !occurs_at(hay, pat, i),
    ensures
        first_from(hay, pat, i) == first_from(hay, pat, i + 1),
{
}

proof fn lemma_run_end_bounds(buf: Seq<u8>, i: int, sfx: u8)
    requires
        0 <= i,
    ensures
        i <= run_end(buf, i, sfx),
        i < buf.len() ==> run_end(buf, i, sfx) <= buf.len(),
        forall|j: int| i <= j < run_end(buf, i, sfx) ==> buf[j] != sfx,
    decreases buf.len() - i,
{
    if i < buf.len() && buf[i] != sfx {
        lemma_run_end_bounds(buf, i + 1, sfx);
    }
}

proof fn lemma_decimal_prefix(d: Seq<u8>, i: int)
    requires
        0 <= i < d.len(),
    ensures
        decimal(d.subrange(0, i + 1)) == decimal(d.subrange(0, i)) * 10 + (d[i] - 48),
{
    assert(d.subrange(0, i + 1).drop_last() =~= d.subrange(0, i));
}

proof fn lemma_decimal_grows(d: Seq<u8>, i: int)
    requires
        all_digits(d),
        0 <= i <= d.len(),
    ensures
        decimal(d.subrange(0, i)) <= decimal(d),
    decreases d.len() - i,
{
    if i < d.len() {
        lemma_decimal_prefix(d, i);
        lemma_decimal_grows(d, i + 1);
        assert(d.subrange(0, i + 1) =~= d.subrange(0, i + 1));
        assert(decimal(d.subrange(0, i)) >= 0) by {
            lemma_decimal_nonneg(d.subrange(0, i));
        }
    } else {
        assert(d.subrange(0, i) =~= d);
    }
}

proof fn lemma_decimal_nonneg(d: Seq<u8>)
    requires
        all_digits(d),
    ensures
        decimal(d) >= 0,
    decreases d.len(),
{
    if d.len() > 0 {
        lemma_decimal_nonneg(d.drop_last());
    }
}

/// Whether `pat` occurs in `hay` at `i`.
fn matches_at(hay: &[u8], pat: &[u8], i: usize) -> (r: bool)
    requires
        i + pat@.len() <= hay@.len(),
    ensures
        r == occurs_at(hay@, pat@, i as int),
{
    let m = pat.len();
    let n = hay.len();
    let mut j: usize = 0;
    while j < m
        invariant
            n == hay@.len(),
            i + m <= n,
            m == pat@.len(),
            j <= m,
            forall|x: int| 0 <= x < j ==> hay@[i + x] == pat@[x],
        decreases m - j,
    {
        if hay[i + j] != pat[j] {
            proof {
                assert(hay@.subrange(i as int, i + m)[j as int] == hay@[i + j]);
            }
            return false;
        }
        j = j + 1;
    }
    proof {
        assert(hay@.subrange(i as int, i + m) =~= pat@);
    }
    true
}

/// The first position at which `pat` occurs in `hay`.
fn find(hay: &[u8], pat: &[u8]) -> (r: Option<usize>)
    ensures
        r matches Some(k) ==> first_from(hay@, pat@, 0) == Some(k as int),
        r is None ==> first_from(hay@, pat@, 0) is None,
{
    let n = hay.len();
    let m = pat.len();
    if m > n {
        return None;
    }
    let mut i: usize = 0;
    loop
        invariant
            m <= n,
            n == hay@.len(),
            m == pat@.len(),
            i <= n - m,
            first_from(hay@, pat@, 0) == first_from(hay@, pat@, i as int),
        decreases n - m - i,
    {
        if matches_at(hay, pat, i) {
            return Some(i);
        }
        proof {
            lemma_first_skip(hay@, pat@, i as int);
        }
        if i == n - m {
            return None;
        }
        i = i + 1;
    }
}

/// Reads the number written in `buf` from `index` up to the byte `sfx`;
/// gives the position just after `sfx` and the number.
fn get_pos_and_length(buf: &[u8], index: usize, sfx: u8) -> (r: Option<(usize, usize)>)
    requires
        buf@.len() < usize::MAX,
    ensures
        r matches Some(x) ==> pos_and_length(buf@, index as int, sfx) == Some((x.0 as int, x.1 as int)),
        r is None ==> pos_and_length(buf@, index as int, sfx) is None,
{
    let n = buf.len();
    let ghost b = buf@;
    proof {
        lemma_run_end_bounds(b, index as int, sfx);
    }
    if index >= n {
        return None;
    }
    let mut e: usize = index;
    while e < n && buf[e] != sfx
        invariant
            n == b.len(),
            b == buf@,
            index < n,
            index <= e <= n,
            run_end(b, index as int, sfx) == run_end(b, e as int, sfx),
        decreases n - e,
    {
        e = e + 1;
    }
    let ghost d = b.subrange(index as int, e as int);
    let mut start: usize = index;
    if start < e && buf[start] == 43u8 {
        start = start + 1;
    }
    let ghost body = b.subrange(start as int, e as int);
    proof {
        if d.len() > 0 && d[0] == 43 {
            assert(d.drop_first() =~= body);
        } else {
            assert(d =~= body);
        }
    }
    proof {
        assert(run_end(b, e as int, sfx) == e);
    }
    if start >= e {
        return None;
    }
    proof {
        assert(d.len() > 0);
    }
    let mut acc: usize = 0;
    let mut i: usize = start;
    while i < e
        invariant
            n == b.len(),
            b == buf@,
            start <= i <= e,
            e <= n,
            body == b.subrange(start as int, e as int),
            body.len() > 0,
            pos_and_length(b, index as int, sfx) == if all_digits(body) && decimal(body) <= usize::MAX {
                Some(((e + 1) as int, decimal(body)))
            } else {
                None
            },
            forall|x: int| 0 <= x < i - start ==> 48 <= #[trigger] body[x] <= 57,
            acc == decimal(body.subrange(0, i - start)),
        decreases e - i,
    {
        let c = buf[i];
        if c < 48u8 || c > 57u8 {
            proof {
                assert(body[i - start] == c);
            }
            return None;
        }
        let digit = (c - 48u8) as usize;
        proof {
            assert(body[i - start] == c);
            lemma_decimal_prefix(body, i - start);
        }
        if acc > (usize::MAX - digit) / 10 {
            proof {
                if all_digits(body) {
                    lemma_decimal_grows(body, i - start + 1);
                    assert(acc * 10 + digit > usize::MAX) by (nonlinear_arith)
                        requires acc > (usize::MAX - digit) / 10, digit <= 9;
                }
            }
            return None;
        }
        acc = acc * 10 + digit;
        i = i + 1;
    }
    proof {
        assert(body.subrange(0, e - start) =~= body);
    }
    Some((e + 1, acc))
}

/// The text that `String::from_utf8_lossy` makes of the bytes `b`.
pub uninterp spec fn lossy_text(b: Seq<u8>) -> Seq<char>;

/// Relies on `String::from_utf8_lossy`: the text depends on the bytes alone.
#[verifier::external_body]
fn text_of(b: &[u8]) -> (r: String)
    ensures
        r@ == lossy_text(b@),
{
    String::from_utf8_lossy(b).into_owned()
}

/// The bytes of `buf` from `a` up to `b`.
fn copy_range(buf: &[u8], a: usize, b: usize) -> (r: Vec<u8>)
    requires
        a <= b <= buf@.len(),
    ensures
        r@ == buf@.subrange(a as int, b as int),
{
    let mut r: Vec<u8> = Vec::new();
    let mut i: usize = a;
    while i < b
        invariant
            a <= i <= b,
            b <= buf@.len(),
            r@ == buf@.subrange(a as int, i as int),
        decreases b - i,
    {
        r.push(buf[i]);
        proof {
            assert(r@ =~= buf@.subrange(a as int, i + 1));
        }
        i = i + 1;
    }
    r
}

/// `pieces`
pub open spec fn pieces_key() -> Seq<u8> {
    seq![112u8, 105u8, 101u8, 99u8, 101u8, 115u8]
}

/// `announce-listl`
pub open spec fn announce_key() -> Seq<u8> {
    seq![97u8, 110u8, 110u8, 111u8, 117u8, 110u8, 99u8, 101u8, 45u8, 108u8, 105u8, 115u8, 116u8, 108u8]
}

/// `4:info`
pub open spec fn info_key() -> Seq<u8> {
    seq![52u8, 58u8, 105u8, 110u8, 102u8, 111u8]
}

/// The number written after the first `name` and one byte more, up to `e`;
/// 0 when there is none.
pub open spec fn num_field(buf: Seq<u8>, name: Seq<u8>) -> u32 {
    match first_from(buf, name, 0) {
        Some(xs) => match pos_and_length(buf, xs + name.len() + 1, 101) {
            Some(pl) => pl.1 as u32,
            None => 0,
        },
        None => 0,
    }
}

/// The bytes of the `pieces` string, written `pieces<length>:<bytes>`.
pub open spec fn pieces_of(buf: Seq<u8>) -> Seq<u8> {
    match first_from(buf, pieces_key(), 0) {
        Some(xs) => match pos_and_length(buf, xs + 6, 58) {
            Some(pl) => if pl.0 + pl.1 <= buf.len() {
                buf.subrange(pl.0, pl.0 + pl.1)
            } else {
                Seq::empty()
            },
            None => Seq::empty(),
        },
        None => Seq::empty(),
    }
}

/// The announce URLs from position `beg` on, each written `l<length>:<url>`.
pub open spec fn announce_list(buf: Seq<u8>, beg: int) -> Seq<Seq<char>>
    decreases buf.len() + 1 - beg,
{
    if 0 <= beg < buf.len() && buf[beg] == 108 {
        match pos_and_length(buf, beg + 1, 58) {
            Some(pl) => if beg < pl.0 && 0 <= pl.1 && pl.0 + pl.1 <= buf.len() {
                seq![lossy_text(buf.subrange(pl.0, pl.0 + pl.1))] + announce_list(buf, pl.0 + pl.1 + 1)
            } else {
                Seq::empty()
            },
            None => Seq::empty(),
        }
    } else {
        Seq::empty()
    }
}

/// The announce URLs of the list that follows `announce-listl`.
pub open spec fn announces_of(buf: Seq<u8>) -> Seq<Seq<char>> {
    match first_from(buf, announce_key(), 0) {
        Some(xs) => announce_list(buf, xs + 14),
        None => Seq::empty(),
    }
}

/// The content of the `info` block, written `4:info<content>e` at the end.
pub open spec fn light_info_of(buf: Seq<u8>) -> Seq<u8> {
    match first_from(buf, info_key(), 0) {
        Some(xs) => if xs + 6 + 1 <= buf.len() {
            buf.subrange(xs + 6, buf.len() - 1)
        } else {
            Seq::empty()
        },
        None => Seq::empty(),
    }
}

/// The raw bytes of a torrent file, read as bencoded metadata.
pub struct TorrentFile {
    buffer: Vec<u8>,
}

impl TorrentFile {
    pub closed spec fn bytes(&self) -> Seq<u8> {
        self.buffer@
    }

    pub open spec fn wf(&self) -> bool {
        self.bytes().len() < usize::MAX
    }

    /// A torrent file holding `buffer`.
    pub fn from_bytes(buffer: Vec<u8>) -> (r: Self)
        requires
            buffer@.len() < usize::MAX,
        ensures
            r.wf(),
            r.bytes() == buffer@,
    {
        TorrentFile { buffer }
    }

    /// The number stored under the key `fld_name`, or 0 when it is missing or unreadable.
    pub fn get_num_field_value(&self, fld_name: &str) -> (r: u32)
        requires
            self.wf(),
        ensures
            r == num_field(self.bytes(), fld_name.spec_bytes()),
    {
        let name = fld_name.as_bytes();
        let buf = self.buffer.as_slice();
        match find(buf, name) {
            Some(xs) => {
                proof {
                    assert(occurs_at(buf@, name@, xs as int)) by {
                        lemma_first_found(buf@, name@, 0);
                    }
                }
                match get_pos_and_length(buf, xs + name.len() + 1, 101u8) {
                    Some(pl) => pl.1 as u32,
                    None => 0,
                }
            },
            None => 0,
        }
    }

    /// The bytes of the `pieces` string, empty when it is missing or unreadable.
    pub fn get_pieces(&self) -> (r: Vec<u8>)
        requires
            self.wf(),
        ensures
            r@ == pieces_of(self.bytes()),
    {
        let key: Vec<u8> = vec![112u8, 105u8, 101u8, 99u8, 101u8, 115u8];
        proof {
            assert(key@ =~= pieces_key());
        }
        let buf = self.buffer.as_slice();
        let n = buf.len();
        match find(buf, key.as_slice()) {
            Some(xs) => {
                proof {
                    lemma_first_found(buf@, key@, 0);
                }
                match get_pos_and_length(buf, xs + 6, 58u8) {
                    Some(pl) => {
                        if pl.0 <= n && pl.1 <= n - pl.0 {
                            copy_range(buf, pl.0, pl.0 + pl.1)
                        } else {
                            Vec::new()
                        }
                    },
                    None => Vec::new(),
                }
            },
            None => Vec::new(),
        }
    }

    /// The announce URLs, in order; empty when there is no announce list.
    pub fn get_announces(&self) -> (r: Vec<String>)
        requires
            self.wf(),
        ensures
            r@.map_values(|t: String| t@) == announces_of(self.bytes()),
    {
        let mut v: Vec<String> = Vec::new();
        let key: Vec<u8> = vec![97u8, 110u8, 110u8, 111u8, 117u8, 110u8, 99u8, 101u8, 45u8, 108u8, 105u8, 115u8, 116u8, 108u8];
        proof {
            assert(key@ =~= announce_key());
        }
        let buf = self.buffer.as_slice();
        let ghost b = buf@;
        let n = buf.len();
        let xs = match find(buf, key.as_slice()) {
            Some(xs) => xs,
            None => {
                proof {
                    assert(v@.map_values(|t: String| t@) =~= Seq::<Seq<char>>::empty());
                }
                return v;
            },
        };
        proof {
            lemma_first_found(b, key@, 0);
        }
        let mut beg = xs + 14;
        proof {
            assert(v@.map_values(|t: String| t@) =~= Seq::<Seq<char>>::empty());
            assert(announce_list(b, beg as int) =~= Seq::<Seq<char>>::empty() + announce_list(b, beg as int));
        }
        while beg < n && buf[beg] == 108u8
            invariant
                b == buf@,
                b == self.bytes(),
                n == b.len(),
                n < usize::MAX,
                beg <= n + 1,
                announces_of(b) == announce_list(b, xs + 14),
                first_from(b, announce_key(), 0) == Some(xs as int),
                announce_list(b, xs + 14) == v@.map_values(|t: String| t@) + announce_list(b, beg as int),
            decreases n + 1 - beg,
        {
            let ghost before = v@.map_values(|t: String| t@);
            match get_pos_and_length(buf, beg + 1, 58u8) {
                Some(pl) => {
                    if beg < pl.0 && pl.0 <= n && pl.1 <= n - pl.0 {
                        let t = text_of(copy_range(buf, pl.0, pl.0 + pl.1).as_slice());
                        v.push(t);
                        proof {
                            let ghost rest = announce_list(b, pl.0 + pl.1 + 1);
                            assert(v@.map_values(|t: String| t@) =~= before.push(t@));
                            assert(announce_list(b, beg as int) == seq![t@] + rest);
                            assert(before + (seq![t@] + rest) =~= before.push(t@) + rest);
                        }
                        beg = pl.0 + pl.1 + 1;
                    } else {
                        proof {
                            assert(announce_list(b, beg as int) =~= Seq::<Seq<char>>::empty());
                            assert(before + Seq::<Seq<char>>::empty() =~= before);
                        }
                        return v;
                    }
                },
                None => {
                    proof {
                        assert(announce_list(b, beg as int) =~= Seq::<Seq<char>>::empty());
                        assert(before + Seq::<Seq<char>>::empty() =~= before);
                    }
                    return v;
                },
            }
        }
        proof {
            let ghost before = v@.map_values(|t: String| t@);
            assert(announce_list(b, beg as int) =~= Seq::<Seq<char>>::empty());
            assert(before + Seq::<Seq<char>>::empty() =~= before);
        }
        v
    }

    /// The content of the `info` block: what follows `4:info`, without the last byte.
    pub fn get_light_info(&self) -> (r: Vec<u8>)
        requires
            self.wf(),
        ensures
            r@ == light_info_of(self.bytes()),
    {
        let key: Vec<u8> = vec![52u8, 58u8, 105u8, 110u8, 102u8, 111u8];
        proof {
            assert(key@ =~= info_key());
        }
        let buf = self.buffer.as_slice();
        let n = buf.len();
        match find(buf, key.as_slice()) {
            Some(xs) => {
                proof {
                    lemma_first_found(buf@, key@, 0);
                }
                if xs + 7 <= n {
                    copy_range(buf, xs + 6, n - 1)
                } else {
                    Vec::new()
                }
            },
            None => Vec::new(),
        }
    }
}

/// A found occurrence lies inside the text.
proof fn lemma_first_found(hay: Seq<u8>, pat: Seq<u8>, i: int)
    requires
        first_from(hay, pat, i) is Some,
    ensures
        occurs_at(hay, pat, first_from(hay, pat, i)->Some_0),
        i <= first_from(hay, pat, i)->Some_0,
    decreases hay.len() + 1 - i,
{
    if !(i < 0 || i + pat.len() > hay.len()) && !occurs_at(hay, pat, i) {
        lemma_first_found(hay, pat, i + 1);
    }
}

/// The metadata read from a torrent file.
pub struct TorrentMetadata<'a> {
    tor_file: &'a TorrentFile,
    announces: Vec<String>,
    length: u32,
    piece_length: u32,
    pieces: Vec<u8>,
    hashinfo: Vec<u8>,
}

impl<'a> TorrentMetadata<'a> {
    pub closed spec fn announce_texts(&self) -> Seq<Seq<char>> {
        self.announces@.map_values(|t: String| t@)
    }

    pub closed spec fn length_value(&self) -> u32 {
        self.length
    }

    pub closed spec fn piece_length_value(&self) -> u32 {
        self.piece_length
    }

    pub closed spec fn piece_bytes(&self) -> Seq<u8> {
        self.pieces@
    }

    /// The announce URLs.
    pub fn announces(&self) -> (r: &Vec<String>)
        ensures
            r@.map_values(|t: String| t@) == self.announce_texts(),
    {
        &self.announces
    }

    /// The value of `length`.
    pub fn length(&self) -> (r: u32)
        ensures
            r == self.length_value(),
    {
        self.length
    }

    /// The value of `piece length`.
    pub fn piece_length(&self) -> (r: u32)
        ensures
            r == self.piece_length_value(),
    {
        self.piece_length
    }

    /// The bytes of `pieces`.
    pub fn pieces(&self) -> (r: &Vec<u8>)
        ensures
            r@ == self.piece_bytes(),
    {
        &self.pieces
    }

    /// Reads the announce list, `length`, `piece length` and `pieces` of `tf`.
    pub fn new(tf: &'a TorrentFile) -> (r: Self)
        requires
            tf.wf(),
        ensures
            r.announce_texts() == announces_of(tf.bytes()),
            r.length_value() == num_field(tf.bytes(), "length".spec_bytes()),
            r.piece_length_value() == num_field(tf.bytes(), "piece length".spec_bytes()),
            r.piece_bytes() == pieces_of(tf.bytes()),
    {
        let length_key = "length";
        let piece_length_key = "piece length";
        TorrentMetadata {
            tor_file: tf,
            announces: tf.get_announces(),
            length: tf.get_num_field_value(length_key),
            piece_length: tf.get_num_field_value(piece_length_key),
            pieces: tf.get_pieces(),
            hashinfo: Vec::new(),
        }
    }
}

} // verus!
