use std::sync::Arc;
use vstd::prelude::*;
use crate::glass::Image;
use crate::text::{share, string_from_chars};

verus! {

#[derive(Clone, Copy, Debug, PartialEq, Eq, Structural)]
pub enum ImageError {
    /// Width or height is zero or beyond the host's 32-bit limit.
    InvalidDimensions,
    /// The pixel buffer would exceed the address space.
    SizeOverflow,
}

/// The byte length of a `width` x `height` RGBA buffer, if the dimensions
/// are valid for the host.
pub open spec fn spec_byte_len(width: int, height: int) -> Result<int, ImageError> {
    if !(0 < width <= i32::MAX && 0 < height <= i32::MAX) {
        Err(ImageError::InvalidDimensions)
    } else if width * height * 4 > isize::MAX {
        Err(ImageError::SizeOverflow)
    } else {
        Ok(width * height * 4)
    }
}

pub fn byte_len(width: usize, height: usize) -> (r: Result<usize, ImageError>)
    ensures
        match spec_byte_len(width as int, height as int) {
            Ok(n) => r matches Ok(m) && m == n,
            Err(ImageError::InvalidDimensions) => r matches Err(ImageError::InvalidDimensions),
            Err(ImageError::SizeOverflow) => r matches Err(ImageError::SizeOverflow),
        },
{
    if !(width > 0 && height > 0 && width <= i32::MAX as usize && height <= i32::MAX as usize) {
        return Err(ImageError::InvalidDimensions);
    }
    let w = width as u128;
    let h = height as u128;
    assert(w * h <= 0x3fff_ffff_0000_0001) by (nonlinear_arith)
        requires
            w <= 0x7fff_ffff,
            h <= 0x7fff_ffff,
    ;
    let n = w * h * 4;
    if n > isize::MAX as u128 {
        return Err(ImageError::SizeOverflow);
    }
    Ok(n as usize)
}

/// Images kept for scripts under string ids, each id at most once.
pub struct ImageStore {
    pub images: Vec<(String, Arc<Image>)>,
}

/// The decimal digits of `n`.
pub open spec fn decimal(n: nat) -> Seq<char>
    decreases n,
{
    if n < 10 {
        seq![digit(n)]
    } else {
        decimal(n / 10).push(digit(n % 10))
    }
}

/// The character of decimal digit `d`.
pub open spec fn digit(d: nat) -> char {
    ((48 + d) as u32) as char
}

proof fn lemma_digit_injective(a: nat, b: nat)
    requires
        a < 10,
        b < 10,
        digit(a) == digit(b),
    ensures
        a == b,
{
    assert(digit(a) as int == 48 + a);
    assert(digit(b) as int == 48 + b);
}

/// The id `ids` proposes for number `n`: `n:` and its decimal digits.
pub open spec fn numbered_id(n: nat) -> Seq<char> {
    seq!['n', ':'] + decimal(n)
}

proof fn lemma_decimal_injective(a: nat, b: nat)
    requires
        decimal(a) == decimal(b),
    ensures
        a == b,
    decreases a,
{
    lemma_decimal_nonempty(a);
    lemma_decimal_nonempty(b);
    if a < 10 && b < 10 {
        assert(decimal(a)[0] == decimal(b)[0]);
        assert(decimal(a)[0] == digit(a));
        assert(decimal(b)[0] == digit(b));
        lemma_digit_injective(a, b);
    } else if a < 10 {
        lemma_decimal_nonempty(b / 10);
        assert(decimal(b).len() >= 2);
    } else if b < 10 {
        lemma_decimal_nonempty(a / 10);
        assert(decimal(a).len() >= 2);
    } else {
        assert(decimal(a / 10) == decimal(a).drop_last());
        assert(decimal(b / 10) == decimal(b).drop_last());
        lemma_decimal_injective(a / 10, b / 10);
        assert(decimal(a).last() == decimal(b).last());
        assert(decimal(a).last() == digit(a % 10));
        assert(decimal(b).last() == digit(b % 10));
        lemma_digit_injective(a % 10, b % 10);
        vstd::arithmetic::div_mod::lemma_fundamental_div_mod(a as int, 10);
        vstd::arithmetic::div_mod::lemma_fundamental_div_mod(b as int, 10);
    }
}

proof fn lemma_decimal_nonempty(n: nat)
    ensures
        decimal(n).len() >= 1,
    decreases n,
{
    if n >= 10 {
        lemma_decimal_nonempty(n / 10);
    }
}

/// Different numbers give different ids.
pub proof fn lemma_numbered_id_injective(a: nat, b: nat)
    requires
        numbered_id(a) == numbered_id(b),
    ensures
        a == b,
{
    assert(decimal(a) == numbered_id(a).subrange(2, numbered_id(a).len() as int));
    assert(decimal(b) == numbered_id(b).subrange(2, numbered_id(b).len() as int));
    lemma_decimal_injective(a, b);
}

/// The decimal digits of `n`.
pub fn decimal_digits(n: u64) -> (r: Vec<char>)
    ensures
        r@ == decimal(n as nat),
    decreases n,
{
    if n < 10 {
        let mut r = Vec::new();
        let c = ((48 + n) as u8) as char;
        assert(c == digit(n as nat));
        r.push(c);
        r
    } else {
        let mut r = decimal_digits(n / 10);
        let c = ((48 + n % 10) as u8) as char;
        assert(c == digit((n % 10) as nat));
        r.push(c);
        r
    }
}

impl ImageStore {
    pub open spec fn keys(&self) -> Seq<Seq<char>> {
        self.images@.map_values(|entry: (String, Arc<Image>)| entry.0@)
    }

    pub open spec fn wf(&self) -> bool {
        &&& self.keys().no_duplicates()
        &&& forall|i: int| 0 <= i < self.images@.len() ==> (#[trigger] self.images@[i]).1.wf()
    }

    /// The ids and images held, as a map.
    pub open spec fn view(&self) -> Map<Seq<char>, Image> {
        Map::new(
            |k: Seq<char>| self.keys().contains(k),
            |k: Seq<char>| *self.images@[self.keys().index_of(k)].1,
        )
    }

    pub fn new() -> (r: ImageStore)
        ensures
            r.wf(),
            r.images@.len() == 0,
    {
        ImageStore { images: Vec::new() }
    }

    fn find(&self, key: &str) -> (r: Option<usize>)
        requires
            self.wf(),
        ensures
            match r {
                Some(i) => i < self.images@.len() && self.keys()[i as int] == key@ && self.keys().index_of(key@) == i,
                None => !self.keys().contains(key@),
            },
    {
        let mut i: usize = 0;
        while i < self.images.len()
            invariant
                i <= self.images@.len(),
                self.wf(),
                forall|j: int| 0 <= j < i ==> self.keys()[j] != key@,
            decreases self.images@.len() - i,
        {
            if self.images[i].0.as_str().eq(key) {
                proof {
                    lemma_index_of_distinct(self.keys(), i as int);
                }
                return Some(i);
            }
            i = i + 1;
        }
        None
    }

    /// Whether `id` is held.
    pub fn contains(&self, id: &str) -> (r: bool)
        requires
            self.wf(),
        ensures
            r == self.keys().contains(id@),
    {
        self.find(id).is_some()
    }

    /// Stores `image` under `id`, replacing any image there, unless
    /// `only_empty` is set and the id is taken. Answers whether it stored.
    pub fn insert(&mut self, id: String, image: Arc<Image>, only_empty: bool) -> (r: bool)
        requires
            old(self).wf(),
            image.wf(),
        ensures
            final(self).wf(),
            r == !(only_empty && old(self).keys().contains(id@)),
            r ==> final(self)@ == old(self)@.insert(id@, *image),
            !r ==> *final(self) == *old(self),
    {
        match self.find(id.as_str()) {
            Some(i) => {
                if only_empty {
                    return false;
                }
                let ghost before = self.keys();
                self.images.set(i, (id, image));
                proof {
                    assert(self.keys() =~= before);
                    assert forall|k: Seq<char>| #[trigger] self@.dom().contains(k) implies self@[k] == old(self)@.insert(id@, *image)[k] by {
                        let j = before.index_of(k);
                        lemma_index_of_member(before, k);
                    };
                    assert(self@ =~= old(self)@.insert(id@, *image));
                }
                true
            },
            None => {
                let ghost before = self.keys();
                self.images.push((id, image));
                proof {
                    assert(self.keys() =~= before.push(id@));
                    assert forall|i: int, j: int| 0 <= i < j < self.keys().len() implies self.keys()[i] != self.keys()[j] by {
                        if j == before.len() {
                            assert(before.contains(before[i]));
                        }
                    };
                    assert forall|k: Seq<char>| #[trigger] self@.dom().contains(k) <==> old(self)@.insert(id@, *image).dom().contains(k) by {
                        if before.contains(k) {
                            lemma_index_of_member(before, k);
                            assert(self.keys()[before.index_of(k)] == k);
                        }
                        if k == id@ {
                            assert(self.keys()[before.len() as int] == id@);
                        }
                        if self.keys().contains(k) && k != id@ {
                            lemma_index_of_member(self.keys(), k);
                            assert(before[self.keys().index_of(k)] == k);
                        }
                    };
                    assert forall|k: Seq<char>| #[trigger] self@.dom().contains(k) implies self@[k] == old(self)@.insert(id@, *image)[k] by {
                        if k != id@ {
                            lemma_index_of_member(before, k);
                            let i = before.index_of(k);
                            lemma_index_of_distinct(self.keys(), i);
                            assert(self.images@[i] == old(self).images@[i]);
                        } else {
                            lemma_index_of_distinct(self.keys(), before.len() as int);
                        }
                    };
                    assert(self@ =~= old(self)@.insert(id@, *image));
                }
                true
            },
        }
    }
}

impl ImageStore {
    /// The image stored under `id`.
    pub fn get(&self, id: &str) -> (r: Option<Arc<Image>>)
        requires
            self.wf(),
        ensures
            match r {
                Some(a) => self@.dom().contains(id@) && *a == self@[id@] && a.wf(),
                None => !self@.dom().contains(id@),
            },
    {
        match self.find(id) {
            Some(i) => Some(share(&self.images[i].1)),
            None => None,
        }
    }

    /// Makes `destination` another name for the image under `source`,
    /// unless `only_empty` is set and `destination` is taken, or `source` is
    /// missing. Answers whether it did.
    pub fn copy(&mut self, destination: String, source: &str, only_empty: bool) -> (r: bool)
        requires
            old(self).wf(),
        ensures
            final(self).wf(),
            r == (!(only_empty && old(self)@.dom().contains(destination@)) && old(self)@.dom().contains(source@)),
            r ==> final(self)@ == old(self)@.insert(destination@, old(self)@[source@]),
            !r ==> *final(self) == *old(self),
    {
        if only_empty && self.contains(destination.as_str()) {
            return false;
        }
        let image = match self.get(source) {
            Some(image) => image,
            None => {
                return false;
            },
        };
        self.insert(destination, image, false)
    }

    /// Removes the image under `id` (answering whether there was one), or
    /// every image when no id is given (answering `true`).
    pub fn delete(&mut self, id: Option<&str>) -> (r: bool)
        requires
            old(self).wf(),
        ensures
            final(self).wf(),
            match id {
                Some(id) => r == old(self)@.dom().contains(id@) && final(self)@ == old(self)@.remove(id@),
                None => r && final(self)@ == Map::<Seq<char>, Image>::empty(),
            },
    {
        match id {
            Some(id) => {
                match self.find(id) {
                    Some(i) => {
                        let ghost before = self.keys();
                        self.images.remove(i);
                        proof {
                            assert(self.keys() =~= before.remove(i as int));
                            assert forall|a: int, b: int| 0 <= a < b < self.keys().len() implies self.keys()[a] != self.keys()[b] by {
                                if a < i {
                                    if b < i {
                                    } else {
                                        assert(self.keys()[b] == before[b + 1]);
                                    }
                                } else {
                                    assert(self.keys()[a] == before[a + 1]);
                                    assert(self.keys()[b] == before[b + 1]);
                                }
                            };
                            assert forall|k: Seq<char>| #[trigger] self@.dom().contains(k) <==> old(self)@.remove(id@).dom().contains(k) by {
                                if before.contains(k) && k != id@ {
                                    lemma_index_of_member(before, k);
                                    let j = before.index_of(k);
                                    if j < i {
                                        assert(self.keys()[j] == k);
                                    } else {
                                        assert(j != i);
                                        assert(self.keys()[j - 1] == k);
                                    }
                                }
                                if self.keys().contains(k) {
                                    lemma_index_of_member(self.keys(), k);
                                    let j = self.keys().index_of(k);
                                    if j < i {
                                        assert(before[j] == k);
                                        lemma_index_of_distinct(before, j);
                                        lemma_index_of_distinct(before, i as int);
                                    } else {
                                        assert(before[j + 1] == k);
                                        lemma_index_of_distinct(before, j + 1);
                                        lemma_index_of_distinct(before, i as int);
                                    }
                                }
                            };
                            assert forall|k: Seq<char>| #[trigger] self@.dom().contains(k) implies self@[k] == old(self)@.remove(id@)[k] by {
                                lemma_index_of_member(self.keys(), k);
                                let j = self.keys().index_of(k);
                                if j < i {
                                    assert(before[j] == k);
                                    lemma_index_of_distinct(before, j);
                                } else {
                                    assert(before[j + 1] == k);
                                    lemma_index_of_distinct(before, j + 1);
                                }
                            };
                            assert(self@ =~= old(self)@.remove(id@));
                        }
                        true
                    },
                    None => {
                        proof {
                            assert(self@ =~= old(self)@.remove(id@));
                        }
                        false
                    },
                }
            },
            None => {
                self.images.clear();
                proof {
                    assert(self.keys() =~= Seq::<Seq<char>>::empty());
                    assert(self@ =~= Map::<Seq<char>, Image>::empty());
                }
                true
            },
        }
    }
}

/// The numbers whose ids are free in a store with `keys`.
pub open spec fn id_free(keys: Seq<Seq<char>>, n: nat) -> bool {
    !keys.contains(numbered_id(n))
}

/// `ns` lists, in increasing order, the first free numbers: every free number
/// below its last element is in it.
pub open spec fn first_free(keys: Seq<Seq<char>>, ns: Seq<nat>, bound: nat) -> bool {
    &&& forall|i: int, j: int| 0 <= i < j < ns.len() ==> ns[i] < ns[j]
    &&& forall|i: int| 0 <= i < ns.len() ==> ns[i] < bound && id_free(keys, #[trigger] ns[i])
    &&& forall|n: nat| n < bound && id_free(keys, n) ==> ns.contains(n)
}

/// A sequence without repeats whose elements all occur in `b` is no longer than `b`.
pub proof fn lemma_distinct_within<A>(a: Seq<A>, b: Seq<A>)
    requires
        a.no_duplicates(),
        forall|i: int| 0 <= i < a.len() ==> b.contains(#[trigger] a[i]),
    ensures
        a.len() <= b.len(),
{
    a.unique_seq_to_set();
    b.lemma_cardinality_of_set();
    assert(a.to_set().subset_of(b.to_set())) by {
        assert forall|x: A| a.to_set().contains(x) implies b.to_set().contains(x) by {
            let i = a.index_of(x);
            assert(b.contains(a[i]));
        };
    };
    vstd::seq_lib::seq_to_set_is_finite(b);
    vstd::set_lib::lemma_len_subset(a.to_set(), b.to_set());
}

impl ImageStore {
    /// With `count` zero, every id held. Otherwise `count` fresh ids
    /// `n:0`, `n:1`, ...: the first numbers whose ids are not taken.
    pub fn ids(&self, count: usize) -> (r: Vec<String>)
        requires
            self.wf(),
            count + self.images@.len() < u64::MAX,
        ensures
            count == 0 ==> r@.map_values(|s: String| s@) == self.keys(),
            count > 0 ==> exists|ns: Seq<nat>| {
                &&& #[trigger] ns.len() == count
                &&& first_free(self.keys(), ns, (ns.last() + 1) as nat)
                &&& forall|j: int| 0 <= j < count ==> r@[j]@ == numbered_id(#[trigger] ns[j])
                &&& r@.len() == count
            },
    {
        if count == 0 {
            let mut all: Vec<String> = Vec::new();
            let mut i: usize = 0;
            while i < self.images.len()
                invariant
                    i <= self.images@.len(),
                    all@.len() == i,
                    all@.map_values(|s: String| s@) == self.keys().take(i as int),
                decreases self.images@.len() - i,
            {
                all.push(self.images[i].0.clone());
                assert(all@[i as int]@ == self.keys()[i as int]);
                i = i + 1;
                assert(all@.map_values(|s: String| s@) =~= self.keys().take(i as int));
            }
            assert(self.keys().take(self.images@.len() as int) =~= self.keys());
            return all;
        }
        let mut result: Vec<String> = Vec::new();
        let mut id: u64 = 0;
        let ghost mut ns: Seq<nat> = Seq::empty();
        let ghost mut hits: Seq<Seq<char>> = Seq::empty();
        let ghost mut hit_ns: Seq<nat> = Seq::empty();
        while result.len() < count
            invariant
                self.wf(),
                count + self.images@.len() < u64::MAX,
                result@.len() == ns.len(),
                result@.len() <= count,
                first_free(self.keys(), ns, id as nat),
                forall|j: int| 0 <= j < ns.len() ==> result@[j]@ == numbered_id(#[trigger] ns[j]),
                hits.no_duplicates(),
                forall|j: int| 0 <= j < hits.len() ==> self.keys().contains(#[trigger] hits[j]),
                hit_ns.len() == hits.len(),
                forall|j: int| 0 <= j < hits.len() ==> hit_ns[j] < id && #[trigger] hits[j] == numbered_id(hit_ns[j]),
                forall|n: nat| n < id && !id_free(self.keys(), n) ==> hits.contains(numbered_id(n)),
                id == ns.len() + hits.len(),
                hits.len() <= self.images@.len(),
            decreases count - result@.len(), self.images@.len() - hits.len(),
        {
            let mut chars: Vec<char> = Vec::new();
            chars.push('n');
            chars.push(':');
            let mut digits = decimal_digits(id);
            chars.append(&mut digits);
            assert(chars@ == numbered_id(id as nat));
            let key = string_from_chars(chars);
            if !self.contains(key.as_str()) {
                result.push(key);
                proof {
                    let old_ns = ns;
                    ns = ns.push(id as nat);
                    assert forall|n: nat| n < id + 1 && id_free(self.keys(), n) implies ns.contains(n) by {
                        if n < id {
                            assert(old_ns.contains(n));
                            let k = old_ns.index_of(n);
                            assert(ns[k] == n);
                        } else {
                            assert(ns[ns.len() - 1] == n);
                        }
                    };
                    assert forall|j: int| 0 <= j < ns.len() implies result@[j]@ == numbered_id(#[trigger] ns[j]) by {
                        if j < old_ns.len() {
                            assert(ns[j] == old_ns[j]);
                        }
                    };
                }
            } else {
                proof {
                    let old_hits = hits;
                    assert(!hits.contains(numbered_id(id as nat))) by {
                        if hits.contains(numbered_id(id as nat)) {
                            let j = hits.index_of(numbered_id(id as nat));
                            lemma_numbered_id_injective(hit_ns[j], id as nat);
                        }
                    };
                    let old_hit_ns = hit_ns;
                    hits = hits.push(numbered_id(id as nat));
                    hit_ns = hit_ns.push(id as nat);
                    assert forall|j: int| 0 <= j < hits.len() implies hit_ns[j] < id + 1 && #[trigger] hits[j] == numbered_id(hit_ns[j]) by {
                        if j < old_hits.len() {
                            assert(hits[j] == old_hits[j]);
                            assert(hit_ns[j] == old_hit_ns[j]);
                        }
                    };
                    assert forall|n: nat| n < id + 1 && !id_free(self.keys(), n) implies hits.contains(numbered_id(n)) by {
                        if n < id {
                            assert(old_hits.contains(numbered_id(n)));
                            let k = old_hits.index_of(numbered_id(n));
                            assert(hits[k] == numbered_id(n));
                        } else {
                            assert(hits[hits.len() - 1] == numbered_id(n));
                        }
                    };
                    assert forall|j: int| 0 <= j < hits.len() implies self.keys().contains(#[trigger] hits[j]) by {
                        if j < old_hits.len() {
                            assert(hits[j] == old_hits[j]);
                        }
                    };
                    assert(hits.no_duplicates()) by {
                        assert forall|a: int, b: int| 0 <= a < b < hits.len() implies hits[a] != hits[b] by {
                            if b == old_hits.len() {
                                assert(old_hits.contains(old_hits[a]));
                            } else {
                                assert(hits[a] == old_hits[a] && hits[b] == old_hits[b]);
                            }
                        };
                    };
                    lemma_distinct_within(hits, self.keys());
                }
            }
            let ghost previous = id;
            id = id + 1;
            proof {
                assert forall|j: int| 0 <= j < hits.len() implies #[trigger] hits[j] == numbered_id(hit_ns[j]) by {
                };
                assert forall|j: int| 0 <= j < hits.len() implies #[trigger] hit_ns[j] < id by {
                    assert(hits[j] == numbered_id(hit_ns[j]));
                };
            }
        }
        proof {
            assert(ns.len() == count);
            assert(ns.last() < id);
            assert(first_free(self.keys(), ns, (ns.last() + 1) as nat)) by {
                assert forall|n: nat| n < ns.last() + 1 && id_free(self.keys(), n) implies ns.contains(n) by {
                };
            };
        }
        result
    }
}

/// Byte `i` of `back` with `front` pasted at `(x, y)`: inside the overlap
/// the front's RGBA replaces the back's whatever its alpha.
pub open spec fn merged_byte(back: Image, front: Image, x: int, y: int, i: int) -> u8 {
    let p = i / 4;
    let ch = i % 4;
    let row = p / (back.width as int);
    let col = p % (back.width as int);
    if y <= row < y + front.height && x <= col < x + front.width {
        front.pixels@[((row - y) * front.width + (col - x)) * 4 + ch]
    } else {
        back.pixels@[i]
    }
}

/// Channel `ch` of the pixel at column `col` and row `row`.
pub open spec fn pixel_byte(image: Image, col: int, row: int, ch: int) -> u8 {
    image.pixels@[(row * image.width + col) * 4 + ch]
}

/// A paste puts the front pixel at column `col - x` and row `row - y` at
/// column `col` and row `row` of the back image, in the same channel, where
/// the two overlap; elsewhere the back pixel stays.
pub proof fn lemma_paste_places_front(back: Image, front: Image, x: int, y: int, col: int, row: int, ch: int)
    requires
        back.wf(),
        front.wf(),
        0 <= col < back.width,
        0 <= row < back.height,
        0 <= ch < 4,
    ensures
        merged_byte(back, front, x, y, (row * back.width + col) * 4 + ch) == if y <= row < y + front.height && x <= col
            < x + front.width {
            pixel_byte(front, col - x, row - y, ch)
        } else {
            pixel_byte(back, col, row, ch)
        },
{
    let p = row * back.width + col;
    vstd::arithmetic::div_mod::lemma_fundamental_div_mod_converse(p * 4 + ch, 4, p, ch);
    vstd::arithmetic::div_mod::lemma_fundamental_div_mod_converse(p, back.width as int, row, col);
    assert(p * 4 + ch == (row * back.width + col) * 4 + ch);
    assert(row * back.width + col == back.width * row + col) by (nonlinear_arith);
}

/// Pasting an image of the back's size at the origin gives the front image.
pub proof fn lemma_paste_whole_cover(back: Image, front: Image, i: int)
    requires
        back.wf(),
        front.wf(),
        front.width == back.width,
        front.height == back.height,
        0 <= i < back.pixels@.len(),
    ensures
        merged_byte(back, front, 0, 0, i) == front.pixels@[i],
{
    let w = back.width as int;
    let p = i / 4;
    let ch = i % 4;
    vstd::arithmetic::div_mod::lemma_fundamental_div_mod(i, 4);
    assert(p < back.width * back.height) by (nonlinear_arith)
        requires
            i == 4 * p + ch,
            0 <= ch,
            i < back.width * back.height * 4,
    ;
    assert(w > 0) by (nonlinear_arith)
        requires
            0 <= p < back.width * back.height,
            w == back.width,
    ;
    vstd::arithmetic::div_mod::lemma_fundamental_div_mod(p, w);
    vstd::arithmetic::div_mod::lemma_div_pos_is_pos(p, w);
    vstd::arithmetic::div_mod::lemma_multiply_divide_lt(p, w, back.height as int);
    assert((p / w) * w + p % w == p) by (nonlinear_arith)
        requires
            p == w * (p / w) + p % w,
    ;
}

/// `front` pasted onto `back` at `(x, y)`, clipped to `back`.
pub fn paste(back: &Image, front: &Image, x: i32, y: i32) -> (r: Image)
    requires
        back.wf(),
        front.wf(),
    ensures
        r.wf(),
        r.width == back.width,
        r.height == back.height,
        forall|i: int| 0 <= i < r.pixels@.len() ==> #[trigger] r.pixels@[i] == merged_byte(*back, *front, x as int, y as int, i),
{
    let back_len = back.pixels.len();
    let front_len = front.pixels.len();
    assert(back.width * back.height <= back.width * back.height * 4) by (nonlinear_arith)
        requires
            back.width >= 0,
            back.height >= 0,
    ;
    let n = back.width * back.height;
    let mut pixels: Vec<u8> = Vec::new();
    let mut p: usize = 0;
    while p < n
        invariant
            back.wf(),
            front.wf(),
            back.pixels@.len() <= usize::MAX,
            front.pixels@.len() <= usize::MAX,
            n == back.width * back.height,
            p <= n,
            pixels@.len() == 4 * p,
            forall|i: int| 0 <= i < pixels@.len() ==> #[trigger] pixels@[i] == merged_byte(*back, *front, x as int, y as int, i),
        decreases n - p,
    {
        let row = p / back.width;
        let col = p % back.width;
        let inside = (row as i128) >= (y as i128) && (row as i128) < (y as i128) + (front.height as i128)
            && (col as i128) >= (x as i128) && (col as i128) < (x as i128) + (front.width as i128);
        proof {
            vstd::arithmetic::div_mod::lemma_fundamental_div_mod(p as int, back.width as int);
            vstd::arithmetic::div_mod::lemma_div_pos_is_pos(p as int, back.width as int);
            vstd::arithmetic::div_mod::lemma_multiply_divide_lt(p as int, back.width as int, back.height as int);
        }
        let mut ch: usize = 0;
        while ch < 4
            invariant
                back.wf(),
                front.wf(),
                back.pixels@.len() <= usize::MAX,
                front.pixels@.len() <= usize::MAX,
                n == back.width * back.height,
                p < n,
                row == p / back.width,
                col == p % back.width,
                row < back.height,
                col < back.width,
                inside == (y <= row < y + front.height && x <= col < x + front.width),
                ch <= 4,
                pixels@.len() == 4 * p + ch,
                forall|i: int| 0 <= i < pixels@.len() ==> #[trigger] pixels@[i] == merged_byte(*back, *front, x as int, y as int, i),
            decreases 4 - ch,
        {
            let i = 4 * p + ch;
            assert(i / 4 == p && i % 4 == ch) by {
                vstd::arithmetic::div_mod::lemma_fundamental_div_mod_converse(i as int, 4, p as int, ch as int);
            };
            let value = if inside {
                let fr = (row as i128 - y as i128) as usize;
                let fc = (col as i128 - x as i128) as usize;
                proof {
                    crate::fill::lemma_grid_index(fc as int, fr as int, front.width as int, front.height as int);
                    assert((fr * front.width + fc) * 4 + ch < front.width * front.height * 4) by (nonlinear_arith)
                        requires
                            fr * front.width + fc < front.width * front.height,
                            ch < 4,
                    ;
                }
                front.pixels[(fr * front.width + fc) * 4 + ch]
            } else {
                proof {
                    crate::fill::lemma_grid_index(col as int, row as int, back.width as int, back.height as int);
                    assert(4 * p + ch < back.width * back.height * 4) by (nonlinear_arith)
                        requires
                            p < back.width * back.height,
                            ch < 4,
                    ;
                }
                back.pixels[4 * p + ch]
            };
            pixels.push(value);
            ch = ch + 1;
        }
        p = p + 1;
    }
    Image { width: back.width, height: back.height, pixels }
}

impl ImageStore {
    /// Pastes the image under `front` onto a copy of the one under `back` at
    /// `(x, y)`; `None` when either is missing.
    pub fn merge(&self, back: &str, front: &str, x: i32, y: i32) -> (r: Option<Image>)
        requires
            self.wf(),
        ensures
            (self@.dom().contains(back@) && self@.dom().contains(front@)) == r is Some,
            r matches Some(image) ==> {
                let b = self@[back@];
                let f = self@[front@];
                &&& image.wf() && image.width == b.width && image.height == b.height
                &&& forall|i: int| 0 <= i < image.pixels@.len() ==> #[trigger] image.pixels@[i] == merged_byte(b, f, x as int, y as int, i)
            },
    {
        let back = match self.get(back) {
            Some(image) => image,
            None => {
                return None;
            },
        };
        let front = match self.get(front) {
            Some(image) => image,
            None => {
                return None;
            },
        };
        Some(paste(&back, &front, x, y))
    }
}

/// A script's handle on a stored image; empty once released.
pub struct ImageLease(pub Option<Arc<Image>>);

/// Ends the lease; the store keeps its image.
pub fn release(lease: &mut ImageLease)
    ensures
        final(lease).0 is None,
{
    lease.0 = None;
}

#[derive(Clone, Copy, Debug, PartialEq, Eq, Structural)]
pub enum ChannelError {
    /// The image was released already.
    Released,
}

/// Channel `ch` of every pixel, in order.
pub open spec fn channel_of(pixels: Seq<u8>, ch: int) -> Seq<u8> {
    Seq::new(pixels.len() / 4, |p: int| pixels[4 * p + ch])
}

/// Splits the leased image into its red, green, blue and alpha planes.
pub fn channels(lease: &ImageLease) -> (r: Result<(Vec<u8>, Vec<u8>, Vec<u8>, Vec<u8>), ChannelError>)
    requires
        lease.0 matches Some(image) ==> image.wf(),
    ensures
        match lease.0 {
            None => r matches Err(ChannelError::Released),
            Some(image) => r matches Ok((red, green, blue, alpha)) && red@ == channel_of(image.pixels@, 0)
                && green@ == channel_of(image.pixels@, 1) && blue@ == channel_of(image.pixels@, 2)
                && alpha@ == channel_of(image.pixels@, 3),
        },
{
    let image = match &lease.0 {
        Some(image) => image,
        None => {
            return Err(ChannelError::Released);
        },
    };
    let pixels = &image.pixels;
    let count = pixels.len() / 4;
    let mut planes: (Vec<u8>, Vec<u8>, Vec<u8>, Vec<u8>) = (Vec::new(), Vec::new(), Vec::new(), Vec::new());
    let mut p: usize = 0;
    while p < count
        invariant
            count == pixels@.len() / 4,
            pixels@.len() <= usize::MAX,
            p <= count,
            planes.0@ == channel_of(pixels@, 0).take(p as int),
            planes.1@ == channel_of(pixels@, 1).take(p as int),
            planes.2@ == channel_of(pixels@, 2).take(p as int),
            planes.3@ == channel_of(pixels@, 3).take(p as int),
        decreases count - p,
    {
        assert(4 * p + 3 < pixels@.len());
        planes.0.push(pixels[4 * p]);
        planes.1.push(pixels[4 * p + 1]);
        planes.2.push(pixels[4 * p + 2]);
        planes.3.push(pixels[4 * p + 3]);
        p = p + 1;
        assert(planes.0@ =~= channel_of(pixels@, 0).take(p as int));
        assert(planes.1@ =~= channel_of(pixels@, 1).take(p as int));
        assert(planes.2@ =~= channel_of(pixels@, 2).take(p as int));
        assert(planes.3@ =~= channel_of(pixels@, 3).take(p as int));
    }
    assert(channel_of(pixels@, 0).take(count as int) =~= channel_of(pixels@, 0));
    assert(channel_of(pixels@, 1).take(count as int) =~= channel_of(pixels@, 1));
    assert(channel_of(pixels@, 2).take(count as int) =~= channel_of(pixels@, 2));
    assert(channel_of(pixels@, 3).take(count as int) =~= channel_of(pixels@, 3));
    Ok(planes)
}

/// The RGBA of pixel `index` of a `width` x `height` buffer; `None` past the
/// last pixel.
pub fn pixel(data: &[u8], width: usize, height: usize, index: usize) -> (r: Result<Option<(u8, u8, u8, u8)>, ImageError>)
    requires
        spec_byte_len(width as int, height as int) matches Ok(n) ==> data@.len() == n,
    ensures
        match spec_byte_len(width as int, height as int) {
            Err(ImageError::InvalidDimensions) => r matches Err(ImageError::InvalidDimensions),
            Err(ImageError::SizeOverflow) => r matches Err(ImageError::SizeOverflow),
            Ok(n) => if index >= n / 4 {
                r matches Ok(None)
            } else {
                r == Ok::<Option<(u8, u8, u8, u8)>, ImageError>(Some((data@[4 * index], data@[4 * index + 1], data@[4 * index + 2], data@[4 * index + 3])))
            },
        },
{
    let len = match byte_len(width, height) {
        Ok(len) => len,
        Err(error) => {
            return Err(error);
        },
    };
    if index >= len / 4 {
        return Ok(None);
    }
    Ok(Some((data[4 * index], data[4 * index + 1], data[4 * index + 2], data[4 * index + 3])))
}

/// The smallest multiple of 4 not below `n`: a bitmap row's stride.
pub open spec fn stride_of(n: int) -> int {
    (n + 3) / 4 * 4
}

/// Byte `i` of the bitmap handed to the image encoder: rows padded to a
/// multiple of four bytes; BGRA for PNG, otherwise BGR composited over black.
pub open spec fn export_byte(rgba: Seq<u8>, width: int, png: bool, i: int) -> u8 {
    let channels = if png { 4int } else { 3int };
    let stride = stride_of(width * channels);
    let row = i / stride;
    let offset = i % stride;
    if offset >= width * channels {
        0
    } else {
        let col = offset / channels;
        let k = offset % channels;
        let source = (row * width + col) * 4;
        let alpha = rgba[source + 3];
        let value = if k == 0 {
            rgba[source + 2]
        } else if k == 1 {
            rgba[source + 1]
        } else if k == 2 {
            rgba[source]
        } else {
            alpha
        };
        if png {
            value
        } else {
            (value as int * alpha as int / 255) as u8
        }
    }
}

/// Converts RGBA pixels into the encoder's bottom-padded BGR(A) rows.
pub fn export_pixels(rgba: &[u8], width: usize, height: usize, png: bool) -> (r: Vec<u8>)
    requires
        spec_byte_len(width as int, height as int) is Ok,
        rgba@.len() == width * height * 4,
        stride_of(width * 4) * height <= usize::MAX,
    ensures
        r@.len() == stride_of(width * (if png { 4int } else { 3int })) * height,
        forall|i: int| 0 <= i < r@.len() ==> #[trigger] r@[i] == export_byte(rgba@, width as int, png, i),
{
    let channels: usize = if png { 4 } else { 3 };
    assert(width * channels <= width * 4) by (nonlinear_arith)
        requires
            channels <= 4,
    ;
    assert(stride_of(width * channels) <= stride_of(width * 4)) by {
        vstd::arithmetic::div_mod::lemma_div_is_ordered(width * channels + 3, width * 4 + 3, 4);
    };
    assert(stride_of(width * channels) * height <= stride_of(width * 4) * height) by (nonlinear_arith)
        requires
            stride_of(width * channels) <= stride_of(width * 4),
    ;
    let rgba_len = rgba.len();
    assert(width * 4 <= width * height * 4) by (nonlinear_arith)
        requires
            height >= 1,
            width >= 0,
    ;
    assert(width * height * 4 <= isize::MAX);
    let stride = (width * channels + 3) / 4 * 4;
    let total = stride * height;
    let mut out: Vec<u8> = Vec::new();
    let mut i: usize = 0;
    while i < total
        invariant
            rgba@.len() == width * height * 4,
            rgba@.len() <= usize::MAX,
            0 < width <= i32::MAX,
            0 < height <= i32::MAX,
            channels == if png { 4usize } else { 3usize },
            stride == stride_of(width * channels),
            total == stride * height,
            i <= total,
            out@.len() == i,
            forall|j: int| 0 <= j < i ==> #[trigger] out@[j] == export_byte(rgba@, width as int, png, j),
        decreases total - i,
    {
        let row = i / stride;
        let offset = i % stride;
        let value = if offset >= width * channels {
            0u8
        } else {
            let col = offset / channels;
            let k = offset % channels;
            proof {
                vstd::arithmetic::div_mod::lemma_fundamental_div_mod(i as int, stride as int);
                vstd::arithmetic::div_mod::lemma_div_pos_is_pos(i as int, stride as int);
                vstd::arithmetic::div_mod::lemma_multiply_divide_lt(i as int, stride as int, height as int);
                vstd::arithmetic::div_mod::lemma_div_pos_is_pos(offset as int, channels as int);
                vstd::arithmetic::div_mod::lemma_multiply_divide_lt(offset as int, channels as int, width as int);
                crate::fill::lemma_grid_index(col as int, row as int, width as int, height as int);
                assert((row * width + col) * 4 + 3 < width * height * 4) by (nonlinear_arith)
                    requires
                        row * width + col < width * height,
                ;
            }
            let source = (row * width + col) * 4;
            let alpha = rgba[source + 3];
            let value = if k == 0 {
                rgba[source + 2]
            } else if k == 1 {
                rgba[source + 1]
            } else if k == 2 {
                rgba[source]
            } else {
                alpha
            };
            if png {
                value
            } else {
                assert(value as u16 * alpha as u16 <= 65025) by (nonlinear_arith)
                    requires
                        value <= 255,
                        alpha <= 255,
                ;
                let product = value as u16 * alpha as u16;
                assert(product / 255 <= 255);
                (product / 255) as u8
            }
        };
        out.push(value);
        i = i + 1;
    }
    out
}

/// In a sequence without repeats, an element's index is where it stands.
pub proof fn lemma_index_of_distinct<A>(s: Seq<A>, i: int)
    requires
        s.no_duplicates(),
        0 <= i < s.len(),
    ensures
        s.index_of(s[i]) == i,
{
    assert(s[i] == s[i]);
    let j = s.index_of(s[i]);
    assert(0 <= j < s.len() && s[j] == s[i]);
}

/// A member's index points at it.
pub proof fn lemma_index_of_member<A>(s: Seq<A>, a: A)
    requires
        s.contains(a),
    ensures
        0 <= s.index_of(a) < s.len(),
        s[s.index_of(a)] == a,
{
}

/// What `insert` writes under an id is what `get` reads back there; every
/// other id keeps what it held, and after `delete` the id reads as absent.
pub proof fn lemma_read_after_write(stored: Map<Seq<char>, Image>, id: Seq<char>, image: Image, other: Seq<char>)
    requires
        other != id,
    ensures
        stored.insert(id, image).dom().contains(id),
        stored.insert(id, image)[id] == image,
        stored.insert(id, image).dom().contains(other) == stored.dom().contains(other),
        stored.dom().contains(other) ==> stored.insert(id, image)[other] == stored[other],
        !stored.remove(id).dom().contains(id),
        stored.remove(id).dom().contains(other) == stored.dom().contains(other),
{
}

} // verus!
