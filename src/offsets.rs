use vstd::prelude::*;

use crate::cri::{parse_cri_log_lines, records_of, split_on, LogLine};

verus! {

/// The offset recorded for `p`: zero for a path never read.
pub open spec fn offset_in(m: Map<Seq<char>, u64>, p: Seq<char>) -> int {
    if m.contains_key(p) {
        m[p] as int
    } else {
        0
    }
}

/// The number of bytes of `s` in UTF-8.
pub open spec fn byte_len(s: Seq<char>) -> int {
    vstd::utf8::encode_utf8(s).len() as int
}

/// For each file path, how many bytes of it have been handed on as lines.
pub struct OffsetTable {
    entries: Vec<(String, u64)>,
    model: Ghost<Map<Seq<char>, u64>>,
}

impl View for OffsetTable {
    type V = Map<Seq<char>, u64>;

    closed spec fn view(&self) -> Map<Seq<char>, u64> {
        self.model@
    }
}

impl OffsetTable {
    /// Each path has one entry, and the entries are exactly the model.
    pub closed spec fn wf(&self) -> bool {
        &&& forall|k: int|
            0 <= k < self.entries.len() ==> #[trigger] self.model@.contains_key(
                self.entries@[k].0@,
            ) && self.model@[self.entries@[k].0@] == self.entries@[k].1
        &&& forall|p: Seq<char>| #[trigger]
            self.model@.contains_key(p) ==> exists|k: int|
                0 <= k < self.entries.len() && #[trigger] self.entries@[k].0@ == p
        &&& forall|a: int, b: int|
            0 <= a < b < self.entries.len() ==> #[trigger] self.entries@[a].0@
                != #[trigger] self.entries@[b].0@
    }

    pub fn new() -> (r: OffsetTable)
        ensures
            r.wf(),
            r@ == Map::<Seq<char>, u64>::empty(),
    {
        OffsetTable { entries: Vec::new(), model: Ghost(Map::empty()) }
    }

    fn find(&self, key: &String) -> (r: Option<usize>)
        requires
            self.wf(),
        ensures
            match r {
                Some(k) => k < self.entries.len() && self.entries@[k as int].0@ == key@,
                None => !self@.contains_key(key@),
            },
    {
        let mut k: usize = 0;
        while k < self.entries.len()
            invariant
                k <= self.entries.len(),
                forall|m: int| 0 <= m < k ==> self.entries@[m].0@ != key@,
            decreases self.entries.len() - k,
        {
            if self.entries[k].0 == *key {
                return Some(k);
            }
            k = k + 1;
        }
        None
    }

    /// Where reading `path` resumes.
    pub fn offset_of(&self, path: &str) -> (r: u64)
        requires
            self.wf(),
        ensures
            r == offset_in(self@, path@),
    {
        let key = path.to_owned();
        match self.find(&key) {
            Some(k) => self.entries[k].1,
            None => 0,
        }
    }

    /// Records that `len` more bytes of `path` have been consumed.
    pub fn advance(&mut self, path: &str, len: u64)
        requires
            old(self).wf(),
            offset_in(old(self)@, path@) + len <= u64::MAX,
        ensures
            final(self).wf(),
            final(self)@ == old(self)@.insert(path@, (offset_in(old(self)@, path@) + len) as u64),
    {
        let key = path.to_owned();
        let ghost m = self.model@;
        match self.find(&key) {
            Some(k) => {
                let v = self.entries[k].1 + len;
                self.entries.set(k, (key, v));
                self.model = Ghost(m.insert(path@, v));
                proof {
                    assert forall|i: int| 0 <= i < self.entries.len() implies #[trigger] self.entries@[i].0@
                        == old(self).entries@[i].0@ by {}
                    assert forall|i: int|
                        0 <= i < self.entries.len() implies #[trigger] self.model@.contains_key(
                            self.entries@[i].0@,
                        ) && self.model@[self.entries@[i].0@] == self.entries@[i].1 by {
                        if i != k {
                            assert(old(self).entries@[i].0@ != old(self).entries@[k as int].0@);
                        }
                    }
                    assert forall|p: Seq<char>| #[trigger]
                        self.model@.contains_key(p) implies exists|i: int|
                            0 <= i < self.entries.len() && #[trigger] self.entries@[i].0@ == p by {
                        if p != path@ {
                            let i = choose|i: int|
                                0 <= i < self.entries.len() && old(self).entries@[i].0@ == p;
                            assert(self.entries@[i].0@ == p);
                        } else {
                            assert(self.entries@[k as int].0@ == p);
                        }
                    }
                }
            },
            None => {
                self.entries.push((key, len));
                self.model = Ghost(m.insert(path@, len));
                proof {
                    let n = self.entries.len() - 1;
                    assert forall|i: int| 0 <= i < n implies #[trigger] self.entries@[i].0@ != path@ by {
                        assert(old(self).model@.contains_key(old(self).entries@[i].0@));
                    }
                    assert forall|i: int|
                        0 <= i < self.entries.len() implies #[trigger] self.model@.contains_key(
                            self.entries@[i].0@,
                        ) && self.model@[self.entries@[i].0@] == self.entries@[i].1 by {
                        if i < n {
                            assert(old(self).model@.contains_key(old(self).entries@[i].0@));
                        }
                    }
                    assert forall|p: Seq<char>| #[trigger]
                        self.model@.contains_key(p) implies exists|i: int|
                            0 <= i < self.entries.len() && #[trigger] self.entries@[i].0@ == p by {
                        if p != path@ {
                            let i = choose|i: int|
                                0 <= i < old(self).entries.len() && old(self).entries@[i].0@ == p;
                            assert(self.entries@[i].0@ == p);
                        } else {
                            assert(self.entries@[n].0@ == p);
                        }
                    }
                }
            },
        }
    }

    /// Takes one line read from `path` at its recorded offset: the offset
    /// moves past the line's bytes first, then the line is parsed.
    pub fn take_line(&mut self, path: &str, line: &str) -> (r: Vec<LogLine>)
        requires
            old(self).wf(),
            byte_len(line@) <= usize::MAX,
            offset_in(old(self)@, path@) + byte_len(line@) <= u64::MAX,
        ensures
            final(self).wf(),
            final(self)@ == old(self)@.insert(
                path@,
                (offset_in(old(self)@, path@) + byte_len(line@)) as u64,
            ),
            r@.map_values(|x: LogLine| x@) == records_of(split_on(line@, '\n')),
    {
        let len = line.len();
        proof {
            assert(len == byte_len(line@));
        }
        self.advance(path, len as u64);
        parse_cri_log_lines(line)
    }
}

/// The table after lines `lines` of `p` have been taken one by one.
pub open spec fn lines_taken(m: Map<Seq<char>, u64>, p: Seq<char>, lines: Seq<Seq<char>>) -> Map<
    Seq<char>,
    u64,
>
    decreases lines.len(),
{
    if lines.len() == 0 {
        m
    } else {
        let prev = lines_taken(m, p, lines.drop_last());
        prev.insert(p, (offset_in(prev, p) + byte_len(lines.last())) as u64)
    }
}

/// The lines one after the other.
pub open spec fn concat_all(lines: Seq<Seq<char>>) -> Seq<char>
    decreases lines.len(),
{
    if lines.len() == 0 {
        Seq::empty()
    } else {
        concat_all(lines.drop_last()) + lines.last()
    }
}

/// UTF-8 encodes a concatenation piece by piece.
pub proof fn lemma_byte_len_concat(a: Seq<char>, b: Seq<char>)
    ensures
        byte_len(a + b) == byte_len(a) + byte_len(b),
{
    lemma_encode_concat(a, b);
}

proof fn lemma_encode_concat(a: Seq<char>, b: Seq<char>)
    ensures
        vstd::utf8::encode_utf8(a + b) == vstd::utf8::encode_utf8(a) + vstd::utf8::encode_utf8(b),
    decreases a.len(),
{
    if a.len() == 0 {
        assert(a + b =~= b);
        assert(vstd::utf8::encode_utf8(a) =~= Seq::<u8>::empty());
        assert(Seq::<u8>::empty() + vstd::utf8::encode_utf8(b) =~= vstd::utf8::encode_utf8(b));
    } else {
        assert((a + b).drop_first() =~= a.drop_first() + b);
        assert((a + b)[0] == a[0]);
        lemma_encode_concat(a.drop_first(), b);
        let e = vstd::utf8::encode_scalar(a[0] as u32);
        assert(e + (vstd::utf8::encode_utf8(a.drop_first()) + vstd::utf8::encode_utf8(b)) =~= (e
            + vstd::utf8::encode_utf8(a.drop_first())) + vstd::utf8::encode_utf8(b));
    }
}

/// After lines totalling `N` bytes have been taken from a file, its offset
/// has moved by exactly `N`.
pub proof fn lemma_offset_moves_by_bytes_taken(
    m: Map<Seq<char>, u64>,
    p: Seq<char>,
    lines: Seq<Seq<char>>,
)
    requires
        offset_in(m, p) + byte_len(concat_all(lines)) <= u64::MAX,
    ensures
        offset_in(lines_taken(m, p, lines), p) == offset_in(m, p) + byte_len(concat_all(lines)),
    decreases lines.len(),
{
    if lines.len() > 0 {
        let d = lines.drop_last();
        lemma_byte_len_concat(concat_all(d), lines.last());
        lemma_offset_moves_by_bytes_taken(m, p, d);
    }
}

} // verus!
