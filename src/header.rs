use vstd::prelude::*;
use vstd::string::*;

use crate::path::{join, lemma_join_front};

verus! {

/// Largest offset or size that the header format can carry without loss.
pub const MAX_SAFE_INTEGER: u64 = 9007199254740991;

/// Why a header could not be taken in.
#[derive(Debug, Clone, Copy, PartialEq, Eq, Structural)]
pub enum HeaderError {
    /// A node is neither a directory nor a file, or a directory's names are unusable.
    Malformed,
    /// An offset or a size is not a decimal number within the format's range.
    InvalidOffset,
}

/// Hashing algorithm used in asar archives.
///
/// Currently only SHA256 is used.
#[derive(Debug, Clone, Copy, PartialEq, Eq, Structural)]
pub enum Algorithm {
    SHA256,
}

pub open spec fn is_digit(c: char) -> bool {
    '0' <= c && c <= '9'
}

pub open spec fn digit_value(c: char) -> nat {
    (c as int - '0' as int) as nat
}

/// The number that a string of decimal digits denotes.
pub open spec fn decimal_value(s: Seq<char>) -> nat
    decreases s.len(),
{
    if s.len() == 0 {
        0
    } else {
        decimal_value(s.drop_last()) * 10 + digit_value(s.last())
    }
}

pub open spec fn is_decimal(s: Seq<char>) -> bool {
    s.len() > 0 && forall|i: int| 0 <= i < s.len() ==> is_digit(#[trigger] s[i])
}

/// How an offset is read from its text in the header.
pub open spec fn decode_offset(s: Seq<char>) -> Result<u64, HeaderError> {
    if is_decimal(s) && decimal_value(s) <= u64::MAX {
        Ok(decimal_value(s) as u64)
    } else {
        Err(HeaderError::InvalidOffset)
    }
}

pub open spec fn digit_char(d: nat) -> char {
    if d == 0 {
        '0'
    } else if d == 1 {
        '1'
    } else if d == 2 {
        '2'
    } else if d == 3 {
        '3'
    } else if d == 4 {
        '4'
    } else if d == 5 {
        '5'
    } else if d == 6 {
        '6'
    } else if d == 7 {
        '7'
    } else if d == 8 {
        '8'
    } else {
        '9'
    }
}

/// The shortest decimal text of a number.
pub open spec fn decimal_of(n: nat) -> Seq<char>
    decreases n,
{
    if n < 10 {
        seq![digit_char(n)]
    } else {
        decimal_of(n / 10).push(digit_char(n % 10))
    }
}

fn digit_str(d: u64) -> (r: &'static str)
    requires
        d < 10,
    ensures
        r@ == seq![digit_char(d as nat)],
{
    proof {
        reveal_strlit("0");
        reveal_strlit("1");
        reveal_strlit("2");
        reveal_strlit("3");
        reveal_strlit("4");
        reveal_strlit("5");
        reveal_strlit("6");
        reveal_strlit("7");
        reveal_strlit("8");
        reveal_strlit("9");
    }
    match d {
        0 => "0",
        1 => "1",
        2 => "2",
        3 => "3",
        4 => "4",
        5 => "5",
        6 => "6",
        7 => "7",
        8 => "8",
        _ => "9",
    }
}

/// Writes an offset as the decimal text that the header stores.
pub fn serialize(offset: u64) -> (r: String)
    ensures
        r@ == decimal_of(offset as nat),
    decreases offset,
{
    if offset < 10 {
        String::from_str(digit_str(offset))
    } else {
        let mut s = serialize(offset / 10);
        s.append(digit_str(offset % 10));
        s
    }
}

proof fn lemma_decimal_prefix_le(s: Seq<char>, i: int)
    requires
        0 <= i <= s.len(),
    ensures
        decimal_value(s.take(i)) <= decimal_value(s),
    decreases s.len(),
{
    if i < s.len() {
        lemma_decimal_prefix_le(s.drop_last(), i);
        assert(s.drop_last().take(i) =~= s.take(i));
    } else {
        assert(s.take(i) =~= s);
    }
}

/// Reads an offset from its decimal text: digits only, within 64 bits.
pub fn deserialize(s: &str) -> (r: Result<u64, HeaderError>)
    ensures
        r == decode_offset(s@),
{
    let n = s.unicode_len();
    if n == 0 {
        return Err(HeaderError::InvalidOffset);
    }
    let mut acc: u64 = 0;
    let mut i: usize = 0;
    while i < n
        invariant
            n == s@.len(),
            0 <= i <= n,
            acc as nat == decimal_value(s@.take(i as int)),
            forall|j: int| 0 <= j < i ==> is_digit(#[trigger] s@[j]),
        decreases n - i,
    {
        let c = s.get_char(i);
        if !('0' <= c && c <= '9') {
            return Err(HeaderError::InvalidOffset);
        }
        let d: u64 = (c as u32 - '0' as u32) as u64;
        assert(s@.take(i + 1).drop_last() =~= s@.take(i as int));
        if acc > 1844674407370955161 || (acc == 1844674407370955161 && d > 5) {
            proof {
                lemma_decimal_prefix_le(s@, i + 1);
            }
            return Err(HeaderError::InvalidOffset);
        }
        acc = acc * 10 + d;
        i = i + 1;
    }
    assert(s@.take(n as int) =~= s@);
    Ok(acc)
}

proof fn lemma_digit_char(d: nat)
    requires
        d < 10,
    ensures
        is_digit(digit_char(d)),
        digit_value(digit_char(d)) == d,
{
}

proof fn lemma_decimal_of_digits(n: nat)
    ensures
        is_decimal(decimal_of(n)),
        decimal_value(decimal_of(n)) == n,
    decreases n,
{
    lemma_digit_char(n % 10);
    if n < 10 {
        lemma_digit_char(n);
        assert(seq![digit_char(n)].drop_last() =~= Seq::<char>::empty());
        assert(decimal_value(Seq::<char>::empty()) == 0);
        assert(decimal_value(decimal_of(n)) == decimal_value(Seq::<char>::empty()) * 10 + n);
    } else {
        lemma_decimal_of_digits(n / 10);
        let t = decimal_of(n / 10);
        assert(t.push(digit_char(n % 10)).drop_last() =~= t);
        assert forall|i: int| 0 <= i < t.len() + 1 implies is_digit(
            #[trigger] t.push(digit_char(n % 10))[i],
        ) by {
            if i < t.len() {
                assert(is_digit(t[i]));
            }
        }
        assert(decimal_value(decimal_of(n)) == decimal_value(t) * 10 + digit_value(
            digit_char(n % 10),
        ));
        assert((n / 10) * 10 + n % 10 == n);
    }
}

/// Every offset survives being written as decimal text and read back.
pub proof fn lemma_offset_round_trip(n: u64)
    ensures
        decode_offset(decimal_of(n as nat)) == Ok::<u64, HeaderError>(n),
{
    lemma_decimal_of_digits(n as nat);
}

/// Checksums of a file, containing the hash for the whole file as well as
/// hashes for each block of data.
#[derive(Debug)]
pub struct Integrity {
    /// Hashing algorithm used in the file.
    pub algorithm: Algorithm,
    /// The hash for the whole file.
    pub hash: String,
    /// Size of a block.
    pub block_size: u32,
    /// Hashes for each block of data containing `block_size` bytes.
    pub blocks: Vec<String>,
}

/// Where a file's bytes lie in the data region, and what else the header says of it.
#[derive(Debug)]
pub struct FileMetadata {
    pub offset: u64,
    pub size: u64,
    pub executable: bool,
    pub integrity: Option<Integrity>,
}

impl FileMetadata {
    /// Offset and size stay within the range that the format carries exactly.
    pub open spec fn wf(&self) -> bool {
        self.offset <= MAX_SAFE_INTEGER && self.size <= MAX_SAFE_INTEGER
    }

    /// Builds a file node from the offset's decimal text and the other fields.
    pub fn new(offset: &str, size: u64, executable: bool, integrity: Option<Integrity>) -> (r:
        Result<FileMetadata, HeaderError>)
        ensures
            r is Ok <==> (decode_offset(offset@) is Ok && decode_offset(offset@)->Ok_0
                <= MAX_SAFE_INTEGER && size <= MAX_SAFE_INTEGER),
            r is Err ==> r == Err::<FileMetadata, HeaderError>(HeaderError::InvalidOffset),
            r matches Ok(m) ==> m.wf() && Ok::<u64, HeaderError>(m.offset) == decode_offset(
                offset@,
            ) && m.size == size && m.executable == executable && m.integrity == integrity,
    {
        match deserialize(offset) {
            Ok(o) => {
                if o <= MAX_SAFE_INTEGER && size <= MAX_SAFE_INTEGER {
                    Ok(FileMetadata { offset: o, size, executable, integrity })
                } else {
                    Err(HeaderError::InvalidOffset)
                }
            },
            Err(e) => Err(e),
        }
    }
}

/// A node of the header tree.
#[derive(Debug)]
pub enum HeaderEntry {
    Dir(Directory),
    File(FileMetadata),
}

/// A directory: its children by name, in no meaningful order.
#[derive(Debug)]
pub struct Directory {
    pub files: Vec<(String, HeaderEntry)>,
}

/// Names that a path can address: not empty, free of '/', each used once.
pub open spec fn names_ok(files: Seq<(String, HeaderEntry)>) -> bool {
    &&& forall|i: int| 0 <= i < files.len() ==> (#[trigger] files[i]).0@.len() > 0
    &&& forall|i: int, k: int|
        0 <= i < files.len() && 0 <= k < files[i].0@.len() ==> #[trigger] files[i].0@[k] != '/'
    &&& forall|i: int, j: int|
        0 <= i < files.len() && 0 <= j < files.len() && i != j ==> (#[trigger] files[i]).0@
            != (#[trigger] files[j]).0@
}

/// The first place where a child of that name stands.
pub open spec fn is_first_with(files: Seq<(String, HeaderEntry)>, name: Seq<char>, i: int) -> bool {
    &&& 0 <= i < files.len()
    &&& files[i].0@ == name
    &&& forall|j: int| 0 <= j < i ==> (#[trigger] files[j]).0@ != name
}

/// The child of a directory under a name.
pub open spec fn child(d: Directory, name: Seq<char>) -> Option<HeaderEntry> {
    if exists|i: int| is_first_with(d.files@, name, i) {
        Some(d.files@[choose|i: int| is_first_with(d.files@, name, i)].1)
    } else {
        None
    }
}

/// The node that a sequence of path segments leads to from `e`.
pub open spec fn resolve(e: HeaderEntry, segs: Seq<Seq<char>>) -> Option<HeaderEntry>
    decreases segs.len(),
{
    if segs.len() == 0 {
        Some(e)
    } else {
        match e {
            HeaderEntry::File(_) => None,
            HeaderEntry::Dir(d) => match child(d, segs[0]) {
                Some(c) => resolve(c, segs.drop_first()),
                None => None,
            },
        }
    }
}

/// The character sequences of a list of strings.
pub open spec fn views(v: Seq<String>) -> Seq<Seq<char>> {
    v.map_values(|s: String| s@)
}

impl HeaderEntry {
    /// Walks the tree along the segments; a file has no children.
    pub fn search_segments(&self, segments: &[String]) -> (r: Option<&HeaderEntry>)
        ensures
            match r {
                Some(e) => resolve(*self, views(segments@)) == Some(*e),
                None => resolve(*self, views(segments@)) is None,
            },
    {
        let ghost segs = views(segments@);
        let mut cur: &HeaderEntry = self;
        let mut i: usize = 0;
        assert(segs.skip(0) =~= segs);
        while i < segments.len()
            invariant
                segs == views(segments@),
                0 <= i <= segments@.len(),
                resolve(*self, segs) == resolve(*cur, segs.skip(i as int)),
            decreases segments@.len() - i,
        {
            assert(segs.skip(i as int).drop_first() =~= segs.skip(i + 1));
            assert(segs.skip(i as int)[0] == segments@[i as int]@);
            match cur {
                HeaderEntry::File(_) => {
                    return None;
                },
                HeaderEntry::Dir(d) => match d.get(&segments[i]) {
                    Some(c) => {
                        cur = c;
                    },
                    None => {
                        return None;
                    },
                },
            }
            i = i + 1;
        }
        assert(segs.skip(i as int) =~= Seq::<Seq<char>>::empty());
        Some(cur)
    }

    /// Every directory below has usable names and every file a valid offset and size.
    pub open spec fn wf(&self) -> bool {
        forall|segs: Seq<Seq<char>>|
            match #[trigger] resolve(*self, segs) {
                Some(HeaderEntry::Dir(d)) => names_ok(d.files@),
                Some(HeaderEntry::File(m)) => m.wf(),
                None => true,
            }
    }
}

/// A path, as segments, that leads from `e` to a file.
pub open spec fn is_file_path(e: HeaderEntry, segs: Seq<Seq<char>>) -> bool {
    segs.len() > 0 && resolve(e, segs) matches Some(HeaderEntry::File(_))
}

/// `p` is the joined path of some file below `e`.
pub open spec fn is_joined_file_path(e: HeaderEntry, p: Seq<char>) -> bool {
    exists|segs: Seq<Seq<char>>| #[trigger] is_file_path(e, segs) && p == join(segs)
}

/// `out` holds the joined path of each file below `e`, and nothing else.
pub open spec fn lists_files(e: HeaderEntry, out: Seq<Seq<char>>) -> bool {
    &&& forall|k: int| 0 <= k < out.len() ==> is_joined_file_path(e, #[trigger] out[k])
    &&& forall|segs: Seq<Seq<char>>| #[trigger] is_file_path(e, segs) ==> out.contains(join(segs))
}

proof fn lemma_push_keeps(out: Seq<Seq<char>>, x: Seq<char>)
    ensures
        forall|p: Seq<char>| out.contains(p) ==> #[trigger] out.push(x).contains(p),
        out.push(x).contains(x),
{
    assert forall|p: Seq<char>| out.contains(p) implies #[trigger] out.push(x).contains(p) by {
        let k = choose|k: int| 0 <= k < out.len() && out[k] == p;
        assert(out.push(x)[k] == p);
    }
    assert(out.push(x)[out.len() as int] == x);
}

/// A child of a well-formed directory is found under its own name and is well-formed.
proof fn lemma_child_wf(d: Directory, j: int)
    requires
        HeaderEntry::Dir(d).wf(),
        0 <= j < d.files@.len(),
    ensures
        child(d, d.files@[j].0@) == Some(d.files@[j].1),
        d.files@[j].1.wf(),
        forall|segs: Seq<Seq<char>>|
            resolve(d.files@[j].1, segs) == #[trigger] resolve(
                HeaderEntry::Dir(d),
                seq![d.files@[j].0@] + segs,
            ),
{
    let n = d.files@[j].0@;
    assert(resolve(HeaderEntry::Dir(d), Seq::empty()) == Some(HeaderEntry::Dir(d)));
    assert(names_ok(d.files@));
    assert(is_first_with(d.files@, n, j));
    let k = choose|k: int| is_first_with(d.files@, n, k);
    assert(k == j);
    assert forall|segs: Seq<Seq<char>>|
        resolve(d.files@[j].1, segs) == #[trigger] resolve(
            HeaderEntry::Dir(d),
            seq![n] + segs,
        ) by {
        assert((seq![n] + segs).drop_first() =~= segs);
        assert((seq![n] + segs)[0] == n);
    }
    assert forall|segs: Seq<Seq<char>>|
        match #[trigger] resolve(d.files@[j].1, segs) {
            Some(HeaderEntry::Dir(d)) => names_ok(d.files@),
            Some(HeaderEntry::File(m)) => m.wf(),
            None => true,
        } by {
        assert(resolve(d.files@[j].1, segs) == resolve(HeaderEntry::Dir(d), seq![n] + segs));
    }
}

/// What a path that starts with a child's name leads to.
proof fn lemma_resolve_first(d: Directory, n: Seq<char>, c: HeaderEntry, segs: Seq<Seq<char>>)
    requires
        child(d, n) == Some(c),
    ensures
        resolve(HeaderEntry::Dir(d), seq![n] + segs) == resolve(c, segs),
{
    assert((seq![n] + segs).drop_first() =~= segs);
    assert((seq![n] + segs)[0] == n);
}

/// Along a path that resolves in a well-formed tree, each segment is a usable
/// name, and the node reached is well-formed too.
pub proof fn lemma_path_names(e: HeaderEntry, segs: Seq<Seq<char>>)
    requires
        e.wf(),
        resolve(e, segs) is Some,
    ensures
        forall|i: int| 0 <= i < segs.len() ==> crate::path::is_segment(#[trigger] segs[i]),
        resolve(e, segs)->Some_0.wf(),
    decreases segs.len(),
{
    assert(resolve(e, Seq::empty()) == Some(e));
    if segs.len() > 0 {
        let n = segs[0];
        let rest = segs.drop_first();
        match e {
            HeaderEntry::Dir(d) => {
                let c = child(d, n)->Some_0;
                let k = choose|k: int| is_first_with(d.files@, n, k);
                assert(names_ok(d.files@));
                assert(d.files@[k].0@.len() > 0);
                assert forall|x: int| 0 <= x < n.len() implies #[trigger] n[x] != '/' by {
                    assert(d.files@[k].0@[x] != '/');
                }
                assert forall|x: Seq<Seq<char>>|
                    match #[trigger] resolve(c, x) {
                        Some(HeaderEntry::Dir(d)) => names_ok(d.files@),
                        Some(HeaderEntry::File(m)) => m.wf(),
                        None => true,
                    } by {
                    lemma_resolve_first(d, n, c, x);
                    assert(resolve(c, x) == resolve(e, seq![n] + x));
                }
                lemma_path_names(c, rest);
                assert(seq![n] + rest =~= segs);
                lemma_resolve_first(d, n, c, rest);
                assert forall|i: int| 0 <= i < segs.len() implies crate::path::is_segment(
                    #[trigger] segs[i],
                ) by {
                    if i > 0 {
                        assert(segs[i] == rest[i - 1]);
                    }
                }
            },
            HeaderEntry::File(_) => {},
        }
    } else {
        assert(resolve(e, segs) == Some(e));
    }
}

impl Directory {
    /// Builds a directory from its children, refusing names that a path
    /// could not address: empty ones, ones that hold '/', and repeated ones.
    pub fn new(files: Vec<(String, HeaderEntry)>) -> (r: Result<Directory, HeaderError>)
        ensures
            r is Ok <==> names_ok(files@),
            r is Err ==> r == Err::<Directory, HeaderError>(HeaderError::Malformed),
            r matches Ok(d) ==> d.files == files,
            r matches Ok(d) ==> ((forall|i: int|
                0 <= i < files@.len() ==> (#[trigger] files@[i]).1.wf()) ==> HeaderEntry::Dir(
                d,
            ).wf()),
    {
        let mut i: usize = 0;
        while i < files.len()
            invariant
                0 <= i <= files@.len(),
                forall|a: int| 0 <= a < i ==> (#[trigger] files@[a]).0@.len() > 0,
                forall|a: int, k: int|
                    0 <= a < i && 0 <= k < files@[a].0@.len() ==> #[trigger] files@[a].0@[k]
                        != '/',
                forall|a: int, b: int|
                    0 <= a < i && 0 <= b < i && a != b ==> (#[trigger] files@[a]).0@ != (
                    #[trigger] files@[b]).0@,
            decreases files@.len() - i,
        {
            let name = files[i].0.as_str();
            let len = name.unicode_len();
            if len == 0 {
                return Err(HeaderError::Malformed);
            }
            let mut k: usize = 0;
            while k < len
                invariant
                    0 <= i < files@.len(),
                    name@ == files@[i as int].0@,
                    len == name@.len(),
                    0 <= k <= len,
                    forall|x: int| 0 <= x < k ==> #[trigger] name@[x] != '/',
                decreases len - k,
            {
                if name.get_char(k) == '/' {
                    return Err(HeaderError::Malformed);
                }
                k = k + 1;
            }
            let mut b: usize = 0;
            while b < i
                invariant
                    0 <= b <= i < files@.len(),
                    forall|x: int| 0 <= x < b ==> (#[trigger] files@[x]).0@ != files@[i as int].0@,
                decreases i - b,
            {
                if files[b].0.eq(&files[i].0) {
                    return Err(HeaderError::Malformed);
                }
                b = b + 1;
            }
            i = i + 1;
        }
        let d = Directory { files };
        proof {
            assert(names_ok(d.files@));
            assert forall|segs: Seq<Seq<char>>|
                (forall|i: int| 0 <= i < d.files@.len() ==> (#[trigger] d.files@[i]).1.wf())
                    implies match #[trigger] resolve(HeaderEntry::Dir(d), segs) {
                    Some(HeaderEntry::Dir(x)) => names_ok(x.files@),
                    Some(HeaderEntry::File(m)) => m.wf(),
                    None => true,
                } by {
                if segs.len() > 0 {
                    match child(d, segs[0]) {
                        Some(c) => {
                            let k = choose|k: int| is_first_with(d.files@, segs[0], k);
                            assert(d.files@[k].1.wf());
                            assert(resolve(c, segs.drop_first()) == resolve(
                                HeaderEntry::Dir(d),
                                segs,
                            ));
                        },
                        None => {},
                    }
                }
            }
        }
        Ok(d)
    }

    /// The paths of all files below this directory, joined with '/';
    /// directories themselves are not listed.
    pub fn file_paths(&self) -> (r: Vec<String>)
        requires
            HeaderEntry::Dir(*self).wf(),
        ensures
            lists_files(HeaderEntry::Dir(*self), views(r@)),
        decreases self,
    {
        let ghost e = HeaderEntry::Dir(*self);
        let mut out: Vec<String> = Vec::new();
        let mut j: usize = 0;
        proof {
            reveal_strlit("/");
        }
        while j < self.files.len()
            invariant
                e == HeaderEntry::Dir(*self),
                e.wf(),
                0 <= j <= self.files@.len(),
                "/"@ == seq!['/'],
                forall|k: int|
                    0 <= k < views(out@).len() ==> is_joined_file_path(e, #[trigger] views(out@)[k]),
                forall|i: int, segs: Seq<Seq<char>>|
#![trigger is_file_path(e, segs), self.files@[i]]
                    0 <= i < j && is_file_path(e, segs) && segs[0]
                        == self.files@[i].0@ ==> views(out@).contains(join(segs)),
            decreases self.files@.len() - j,
        {
            proof {
                lemma_child_wf(*self, j as int);
            }
            let ghost n = self.files@[j as int].0@;
            let ghost c = self.files@[j as int].1;
            match &self.files[j].1 {
                HeaderEntry::File(_) => {
                    let ghost before = views(out@);
                    out.push(self.files[j].0.clone());
                    proof {
                        assert(views(out@) =~= before.push(n));
                        lemma_push_keeps(before, n);
                        assert(seq![n] + Seq::<Seq<char>>::empty() =~= seq![n]);
                        assert(resolve(c, Seq::empty()) == resolve(
                            e,
                            seq![n] + Seq::<Seq<char>>::empty(),
                        ));
                        assert(is_file_path(e, seq![n]));
                        assert(join(seq![n]) == n);
                        assert forall|segs: Seq<Seq<char>>|
                            #[trigger] is_file_path(e, segs) && segs[0] == n implies views(
                                out@,
                            ).contains(join(segs)) by {
                            assert(seq![n] + segs.drop_first() =~= segs);
                            if segs.len() > 1 {
                                assert(resolve(e, segs) == resolve(c, segs.drop_first()));
                            } else {
                                assert(segs =~= seq![n]);
                            }
                        }
                    }
                },
                HeaderEntry::Dir(sub) => {
                    let sub_paths = sub.file_paths();
                    let ghost sv = views(sub_paths@);
                    let mut m: usize = 0;
                    while m < sub_paths.len()
                        invariant
                            e == HeaderEntry::Dir(*self),
                            e.wf(),
                            0 <= j < self.files@.len(),
                            n == self.files@[j as int].0@,
                            c == self.files@[j as int].1,
                            c == HeaderEntry::Dir(*sub),
                            forall|segs: Seq<Seq<char>>|
                                resolve(c, segs) == #[trigger] resolve(e, seq![n] + segs),
                            sv == views(sub_paths@),
                            lists_files(c, sv),
                            0 <= m <= sv.len(),
                            "/"@ == seq!['/'],
                            forall|k: int|
                                0 <= k < views(out@).len() ==> is_joined_file_path(
                                    e,
                                    #[trigger] views(out@)[k],
                                ),
                            forall|i: int, segs: Seq<Seq<char>>|
#![trigger is_file_path(e, segs), self.files@[i]]
                                0 <= i < j && is_file_path(e, segs) && segs[0]
                                    == self.files@[i].0@ ==> views(out@).contains(join(segs)),
                            forall|q: int|
                                0 <= q < m ==> views(out@).contains(
                                    n + seq!['/'] + #[trigger] sv[q],
                                ),
                        decreases sv.len() - m,
                    {
                        let mut p = self.files[j].0.clone();
                        p.append("/");
                        p.append(sub_paths[m].as_str());
                        let ghost before = views(out@);
                        out.push(p);
                        proof {
                            assert(views(out@) =~= before.push(p@));
                            lemma_push_keeps(before, p@);
                            let rest = choose|segs: Seq<Seq<char>>|
                                #[trigger] is_file_path(c, segs) && sv[m as int] == join(segs);
                            lemma_join_front(n, rest);
                            assert(resolve(c, rest) == resolve(e, seq![n] + rest));
                            assert(is_file_path(e, seq![n] + rest));
                        }
                        m = m + 1;
                    }
                    proof {
                        assert forall|segs: Seq<Seq<char>>|
                            #[trigger] is_file_path(e, segs) && segs[0] == n implies views(
                                out@,
                            ).contains(join(segs)) by {
                            let rest = segs.drop_first();
                            assert(seq![n] + rest =~= segs);
                            assert(resolve(c, rest) == resolve(e, segs));
                            if rest.len() == 0 {
                                assert(resolve(c, rest) == Some(c));
                            } else {
                                assert(is_file_path(c, rest));
                                let q = choose|q: int| 0 <= q < sv.len() && sv[q] == join(rest);
                                lemma_join_front(n, rest);
                                assert(views(out@).contains(n + seq!['/'] + sv[q]));
                            }
                        }
                    }
                },
            }
            j = j + 1;
        }
        proof {
            assert forall|segs: Seq<Seq<char>>| #[trigger]
                is_file_path(e, segs) implies views(out@).contains(join(segs)) by {
                let name = segs[0];
                let i = choose|i: int| is_first_with(self.files@, name, i);
                assert(child(*self, name) is Some);
                assert(is_first_with(self.files@, name, i));
                assert(is_file_path(e, segs) && segs[0] == self.files@[i].0@);
            }
        }
        out
    }

    /// Looks a child up by its exact name.
    pub fn get(&self, name: &String) -> (r: Option<&HeaderEntry>)
        ensures
            match r {
                Some(e) => child(*self, name@) == Some(*e),
                None => child(*self, name@) is None,
            },
    {
        let mut i: usize = 0;
        while i < self.files.len()
            invariant
                0 <= i <= self.files@.len(),
                forall|j: int| 0 <= j < i ==> (#[trigger] self.files@[j]).0@ != name@,
            decreases self.files@.len() - i,
        {
            if self.files[i].0.eq(name) {
                proof {
                    assert(is_first_with(self.files@, name@, i as int));
                    let k = choose|k: int| is_first_with(self.files@, name@, k);
                    assert(k == i) by {
                        if k < i {
                        } else if k > i {
                            assert(self.files@[i as int].0@ == name@);
                        }
                    }
                }
                return Some(&self.files[i].1);
            }
            i = i + 1;
        }
        None
    }
}

} // verus!
