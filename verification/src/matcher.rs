use vstd::prelude::*;

verus! {

/// `pattern` occurs in `buffer` starting at index `i`.
pub open spec fn matches_at(buffer: Seq<u8>, pattern: Seq<u8>, i: int) -> bool {
    &&& 0 <= i
    &&& i + pattern.len() <= buffer.len()
    &&& buffer.subrange(i, i + pattern.len()) =~= pattern
}

/// The first index `>= from` at which a non-empty `pattern` occurs in `buffer`.
pub open spec fn first_match(buffer: Seq<u8>, pattern: Seq<u8>, from: int) -> Option<int>
    decreases buffer.len() - from,
{
    if pattern.len() == 0 || from < 0 || from + pattern.len() > buffer.len() {
        None
    } else if matches_at(buffer, pattern, from) {
        Some(from)
    } else {
        first_match(buffer, pattern, from + 1)
    }
}

/// The indices `>= from` of every occurrence of a non-empty `pattern` in
/// `buffer`, in increasing order (overlapping occurrences included).
pub open spec fn matches_from(buffer: Seq<u8>, pattern: Seq<u8>, from: int) -> Seq<int>
    decreases buffer.len() - from,
{
    match first_match(buffer, pattern, from) {
        Some(i) => if from <= i < buffer.len() {
            seq![i].add(matches_from(buffer, pattern, i + 1))
        } else {
            Seq::empty()
        },
        None => Seq::empty(),
    }
}

/// Every occurrence of `pattern` in `buffer`, in increasing order.
pub open spec fn all_matches(buffer: Seq<u8>, pattern: Seq<u8>) -> Seq<int> {
    matches_from(buffer, pattern, 0)
}

/// `first_match` is the least matching index at or after `from`.
pub proof fn lemma_first_match(buffer: Seq<u8>, pattern: Seq<u8>, from: int)
    requires
        0 <= from,
    ensures
        match first_match(buffer, pattern, from) {
            Some(i) => {
                &&& pattern.len() > 0
                &&& from <= i
                &&& matches_at(buffer, pattern, i)
                &&& forall|j: int| from <= j < i ==> !matches_at(buffer, pattern, j)
            },
            None => pattern.len() == 0 || forall|j: int| from <= j ==> !matches_at(buffer, pattern, j),
        },
    decreases buffer.len() - from,
{
    if pattern.len() == 0 || from + pattern.len() > buffer.len() {
    } else if matches_at(buffer, pattern, from) {
    } else {
        lemma_first_match(buffer, pattern, from + 1);
    }
}

/// `matches_from` lists exactly the matching indices at or after `from`, in
/// strictly increasing order.
pub proof fn lemma_matches_from(buffer: Seq<u8>, pattern: Seq<u8>, from: int)
    requires
        0 <= from,
    ensures
        forall|k: int|
            0 <= k < matches_from(buffer, pattern, from).len() ==> {
                &&& from <= #[trigger] matches_from(buffer, pattern, from)[k]
                &&& matches_at(buffer, pattern, matches_from(buffer, pattern, from)[k])
                &&& matches_from(buffer, pattern, from)[k] + pattern.len() <= buffer.len()
            },
        forall|k: int, l: int|
            0 <= k < l < matches_from(buffer, pattern, from).len() ==> matches_from(
                buffer,
                pattern,
                from,
            )[k] < matches_from(buffer, pattern, from)[l],
        pattern.len() > 0 ==> forall|j: int|
            from <= j && matches_at(buffer, pattern, j) ==> matches_from(
                buffer,
                pattern,
                from,
            ).contains(j),
    decreases buffer.len() - from,
{
    lemma_first_match(buffer, pattern, from);
    match first_match(buffer, pattern, from) {
        Some(i) => {
            lemma_matches_from(buffer, pattern, i + 1);
            let rest = matches_from(buffer, pattern, i + 1);
            let all = matches_from(buffer, pattern, from);
            assert(all == seq![i].add(rest));
            assert forall|j: int| from <= j && matches_at(buffer, pattern, j) implies all.contains(
                j,
            ) by {
                if j == i {
                    assert(all[0] == j);
                } else {
                    assert(rest.contains(j));
                    let k = choose|k: int| 0 <= k < rest.len() && rest[k] == j;
                    assert(all[k + 1] == j);
                }
            }
            assert forall|k: int, l: int| 0 <= k < l < all.len() implies all[k] < all[l] by {
                if k == 0 {
                    assert(all[l] == rest[l - 1]);
                } else {
                    assert(all[k] == rest[k - 1]);
                    assert(all[l] == rest[l - 1]);
                }
            }
            assert forall|k: int| 0 <= k < all.len() implies from <= #[trigger] all[k]
                && matches_at(buffer, pattern, all[k]) && all[k] + pattern.len()
                <= buffer.len() by {
                if k > 0 {
                    assert(all[k] == rest[k - 1]);
                }
            }
        },
        None => {},
    }
}

/// Searches for a fixed byte pattern within a byte slice.
///
/// A `PatternMatcher` is created once for a given pattern and can then search
/// for it across several byte slices.
pub struct PatternMatcher<'a> {
    pattern: &'a [u8],
}

impl<'a> View for PatternMatcher<'a> {
    type V = Seq<u8>;

    closed spec fn view(&self) -> Seq<u8> {
        self.pattern@
    }
}

/// Whether `pattern` occurs at `offset` in `buffer`; compares byte by byte.
fn occurs_at(buffer: &[u8], pattern: &[u8], offset: usize) -> (res: bool)
    requires
        offset + pattern@.len() <= buffer@.len(),
    ensures
        res == matches_at(buffer@, pattern@, offset as int),
{
    let blen = buffer.len();
    let mut k: usize = 0;
    while k < pattern.len()
        invariant
            k <= pattern@.len(),
            offset + pattern@.len() <= buffer@.len(),
            blen == buffer@.len(),
            forall|j: int| 0 <= j < k ==> buffer@[offset + j] == pattern@[j],
        decreases pattern@.len() - k,
    {
        if buffer[offset + k] != pattern[k] {
            assert(buffer@.subrange(offset as int, offset + pattern@.len())[k as int]
                != pattern@[k as int]);
            return false;
        }
        k = k + 1;
    }
    assert(buffer@.subrange(offset as int, offset + pattern@.len()) =~= pattern@);
    true
}

impl<'a> PatternMatcher<'a> {
    /// Creates a new `PatternMatcher` that borrows `pattern`.
    pub fn new(pattern: &'a [u8]) -> (res: Self)
        ensures
            res@ == pattern@,
    {
        Self { pattern }
    }

    /// Returns the index of the first occurrence of the pattern in `buffer`
    /// at or after `from`; `None` if the pattern is empty or not found (as in
    /// a buffer shorter than the pattern).
    pub fn find_in(&self, buffer: &[u8], from: usize) -> (res: Option<usize>)
        ensures
            res == (match first_match(buffer@, self@, from as int) {
                Some(i) => Some(i as usize),
                None => None::<usize>,
            }),
            match res {
                Some(i) => {
                    &&& self@.len() > 0
                    &&& from <= i
                    &&& matches_at(buffer@, self@, i as int)
                    &&& forall|j: int| from <= j < i ==> !matches_at(buffer@, self@, j)
                },
                None => self@.len() == 0 || forall|j: int|
                    from <= j ==> !matches_at(buffer@, self@, j),
            },
    {
        proof {
            lemma_first_match(buffer@, self@, from as int);
        }
        if self.pattern.len() == 0 {
            return None;
        }
        let blen = buffer.len();
        if blen < self.pattern.len() {
            return None;
        }
        let last_start = blen - self.pattern.len();
        if from > last_start {
            return None;
        }
        let mut offset = from;
        while offset <= last_start
            invariant
                from <= offset,
                self@.len() > 0,
                buffer@.len() >= self@.len(),
                last_start == buffer@.len() - self@.len(),
                blen == buffer@.len(),
                first_match(buffer@, self@, from as int) == first_match(
                    buffer@,
                    self@,
                    offset as int,
                ),
            decreases last_start + 1 - offset,
        {
            if occurs_at(buffer, self.pattern, offset) {
                proof {
                    assert(first_match(buffer@, self@, offset as int) == Some(offset as int));
                    lemma_first_match(buffer@, self@, from as int);
                }
                return Some(offset);
            }
            offset = offset + 1;
        }
        None
    }

    /// Returns the starting indices of every occurrence of the pattern in
    /// `buffer`, advancing one byte at a time so that overlapping matches are
    /// reported too. Empty when the pattern is empty or absent.
    pub fn find_all_in(&self, buffer: &[u8]) -> (res: Vec<usize>)
        ensures
            res@.len() == all_matches(buffer@, self@).len(),
            forall|k: int| 0 <= k < res@.len() ==> res@[k] as int == #[trigger] all_matches(buffer@, self@)[k],
            forall|k: int| 0 <= k < res@.len() ==> matches_at(buffer@, self@, #[trigger] res@[k] as int),
            forall|k: int, l: int| 0 <= k < l < res@.len() ==> res@[k] < res@[l],
            forall|j: int| matches_at(buffer@, self@, j) && self@.len() > 0 ==> exists|k: int|
                0 <= k < res@.len() && #[trigger] res@[k] as int == j,
    {
        proof {
            lemma_matches_from(buffer@, self@, 0);
        }
        let mut matches: Vec<usize> = Vec::new();
        if self.pattern.len() == 0 {
            return matches;
        }
        let blen = buffer.len();
        if blen < self.pattern.len() {
            proof {
                lemma_first_match(buffer@, self@, 0);
                assert(all_matches(buffer@, self@).len() == 0);
            }
            return matches;
        }
        let mut search_from: usize = 0;
        loop
            invariant
                blen == buffer@.len(),
                self@.len() > 0,
                buffer@.len() >= self@.len(),
                search_from <= buffer@.len(),
                search_from > 0 ==> matches@.len() > 0,
                all_matches(buffer@, self@).len() == matches@.len() + matches_from(
                    buffer@,
                    self@,
                    search_from as int,
                ).len(),
                forall|k: int|
                    0 <= k < matches@.len() ==> matches@[k] as int == all_matches(
                        buffer@,
                        self@,
                    )[k],
                forall|k: int|
                    0 <= k < matches_from(buffer@, self@, search_from as int).len() ==> all_matches(
                        buffer@,
                        self@,
                    )[matches@.len() + k] == matches_from(buffer@, self@, search_from as int)[k],
            ensures
                all_matches(buffer@, self@).len() == matches@.len(),
                forall|k: int|
                    0 <= k < matches@.len() ==> matches@[k] as int == all_matches(
                        buffer@,
                        self@,
                    )[k],
            decreases buffer@.len() - search_from,
        {
            let found = self.find_in(buffer, search_from);
            match found {
                Some(found_at) => {
                    let ghost old_rest = matches_from(buffer@, self@, search_from as int);
                    proof {
                        lemma_first_match(buffer@, self@, search_from as int);
                        assert(old_rest == seq![found_at as int].add(
                            matches_from(buffer@, self@, found_at + 1),
                        ));
                    }
                    matches.push(found_at);
                    search_from = found_at + 1;
                    proof {
                        let rest = matches_from(buffer@, self@, search_from as int);
                        assert forall|k: int| 0 <= k < rest.len() implies all_matches(
                            buffer@,
                            self@,
                        )[matches@.len() + k] == rest[k] by {
                            assert(old_rest[k + 1] == rest[k]);
                        }
                        assert(old_rest[0] == found_at as int);
                    }
                },
                None => {
                    proof {
                        assert(matches_from(buffer@, self@, search_from as int).len() == 0);
                    }
                    break;
                },
            }
        }
        proof {
            let all = all_matches(buffer@, self@);
            assert forall|j: int| matches_at(buffer@, self@, j) && self@.len() > 0 implies exists|k: int|
                0 <= k < matches@.len() && #[trigger] matches@[k] as int == j by {
                assert(all.contains(j));
                let k = choose|k: int| 0 <= k < all.len() && all[k] == j;
                assert(matches@[k] as int == j);
            }
        }
        matches
    }
}

} // verus!
