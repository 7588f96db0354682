//! Character matching: an immutable catalog of candidate characters, each
//! with an embedding vector and a mean luminosity, and the scoring rule
//! that picks the best-matching entry for a patch signature.
//!
//! Embedding components, luminosities and the blending weight are
//! fixed-point micro-units (1_000_000 = 1.0). A catalog entry's score for
//! a patch is the exact integer form of
//! `w * (cos + 1) / 2 + (1 - w) * (1 - |pl - el|)`, both terms brought to
//! the common scale `2 * 10^18`:
//! `w * (dot + 10^12) + (10^6 - w) * (10^6 - |pl - el|) * 2 * 10^6`.

use vstd::prelude::*;
use crate::PicunicError;

verus! {

/// Micro-unit scale: 1_000_000 represents 1.0.
pub const MICRO: i32 = 1_000_000;

/// Largest accepted embedding dimension.
pub const DIM_MAX: usize = 1_000_000;

/// Sum of the first `n` pairwise products of two component vectors.
pub open spec fn dot_to(a: Seq<i32>, b: Seq<i32>, n: int) -> int
    decreases n,
{
    if n <= 0 {
        0
    } else {
        dot_to(a, b, n - 1) + a[n - 1] * b[n - 1]
    }
}

/// Dot product of two component vectors of equal length.
pub open spec fn dot(a: Seq<i32>, b: Seq<i32>) -> int {
    dot_to(a, b, a.len() as int)
}

/// Each partial dot product of two component vectors is bounded by
/// `n * 2^62`.
pub proof fn lemma_dot_to_bound(a: Seq<i32>, b: Seq<i32>, n: int)
    requires
        0 <= n <= a.len(),
        n <= b.len(),
    ensures
        -(n * 0x4000_0000_0000_0000) <= dot_to(a, b, n) <= n * 0x4000_0000_0000_0000,
    decreases n,
{
    if n > 0 {
        lemma_dot_to_bound(a, b, n - 1);
        assert(-0x4000_0000_0000_0000 <= a[n - 1] * b[n - 1] <= 0x4000_0000_0000_0000)
            by (nonlinear_arith)
            requires
                -0x8000_0000 <= a[n - 1] <= 0x7fff_ffff,
                -0x8000_0000 <= b[n - 1] <= 0x7fff_ffff,
        ;
    }
}

/// Luminosity similarity in micro-units: `1 - |pl - el|`, scaled.
pub open spec fn lum_similarity(pl: int, el: int) -> int {
    if pl >= el {
        1_000_000 - (pl - el)
    } else {
        1_000_000 - (el - pl)
    }
}

/// A character in the ASCII printable range 0x20 to 0x7E.
pub open spec fn is_ascii_printable(c: char) -> bool {
    0x20 <= c as u32 <= 0x7e
}

/// A character that renders as plain monochrome text in common fonts:
/// ASCII, Latin-1 Supplement, Box Drawing, Block Elements or Geometric
/// Shapes.
pub open spec fn is_monochrome_safe(c: char) -> bool {
    ||| 0x20 <= c as u32 <= 0x7e
    ||| 0xa0 <= c as u32 <= 0xff
    ||| 0x2500 <= c as u32 <= 0x257f
    ||| 0x2580 <= c as u32 <= 0x259f
    ||| 0x25a0 <= c as u32 <= 0x25ff
}

/// The retained predicate of the two standard catalog filters.
pub open spec fn filter_pred(ascii: bool, c: char) -> bool {
    if ascii {
        is_ascii_printable(c)
    } else {
        is_monochrome_safe(c)
    }
}

/// The subsequence of catalog entries whose character satisfies the
/// chosen filter, in their original order.
pub open spec fn filtered_entries(s: Seq<(char, Seq<i32>, i32)>, ascii: bool) -> Seq<
    (char, Seq<i32>, i32),
>
    decreases s.len(),
{
    if s.len() == 0 {
        Seq::empty()
    } else {
        let rest = filtered_entries(s.drop_last(), ascii);
        if filter_pred(ascii, s.last().0) {
            rest.push(s.last())
        } else {
            rest
        }
    }
}

/// A filtered catalog is never longer than its source, and every entry
/// kept satisfies the filter; order and alignment are preserved because
/// `filtered_entries` keeps whole entries in sequence order.
pub proof fn lemma_filtered_entries_sound(s: Seq<(char, Seq<i32>, i32)>, ascii: bool)
    ensures
        filtered_entries(s, ascii).len() <= s.len(),
        forall|k: int|
            0 <= k < filtered_entries(s, ascii).len() ==> filter_pred(
                ascii,
                (#[trigger] filtered_entries(s, ascii)[k]).0,
            ),
    decreases s.len(),
{
    if s.len() > 0 {
        lemma_filtered_entries_sound(s.drop_last(), ascii);
    }
}

/// Scores every catalog entry against a patch signature and returns the
/// best entry's character.
pub struct EmbeddingMatcher {
    chars: Vec<char>,
    embeddings: Vec<Vec<i32>>,
    luminosities: Vec<i32>,
    dim: usize,
    edge_weight: i32,
}

impl EmbeddingMatcher {
    pub closed spec fn chars_view(&self) -> Seq<char> {
        self.chars@
    }

    pub closed spec fn emb_at(&self, i: int) -> Seq<i32> {
        self.embeddings@[i]@
    }

    pub closed spec fn lum_at(&self, i: int) -> i32 {
        self.luminosities@[i]
    }

    pub closed spec fn spec_dim(&self) -> usize {
        self.dim
    }

    pub closed spec fn spec_edge_weight(&self) -> i32 {
        self.edge_weight
    }

    /// Entry count.
    pub open spec fn spec_len(&self) -> int {
        self.chars_view().len() as int
    }

    /// Entry `i` as one value: character, embedding row, luminosity.
    pub open spec fn entry_at(&self, i: int) -> (char, Seq<i32>, i32) {
        (self.chars_view()[i], self.emb_at(i), self.lum_at(i))
    }

    /// The whole catalog in insertion order.
    pub open spec fn entries(&self) -> Seq<(char, Seq<i32>, i32)> {
        Seq::new(self.chars_view().len(), |i: int| self.entry_at(i))
    }

    /// Parallel arrays of equal length, rows of the catalog's dimension,
    /// the weight clamped, the dimension bounded.
    pub open spec fn wf(&self) -> bool {
        &&& self.chars_view().len() == self.spec_num_rows()
        &&& self.chars_view().len() == self.spec_num_lums()
        &&& forall|i: int|
            0 <= i < self.spec_len() ==> (#[trigger] self.emb_at(i)).len() == self.spec_dim()
        &&& 0 <= self.spec_edge_weight() <= 1_000_000
        &&& self.spec_dim() <= DIM_MAX
    }

    pub closed spec fn spec_num_rows(&self) -> nat {
        self.embeddings@.len()
    }

    pub closed spec fn spec_num_lums(&self) -> nat {
        self.luminosities@.len()
    }

    /// The exact integer score of entry `i` for a patch with embedding
    /// `emb` and luminosity `pl`: embedding and luminosity similarity
    /// blended by the edge weight, on the common scale `2 * 10^18`.
    pub open spec fn entry_score(&self, i: int, emb: Seq<i32>, pl: int) -> int {
        (self.spec_edge_weight() as int) * (dot(self.emb_at(i), emb) + 1_000_000_000_000) + (
        1_000_000 - self.spec_edge_weight() as int) * (lum_similarity(pl, self.lum_at(i) as int)
            * 2_000_000)
    }

    /// Whether entry `i` takes part in a scan: every entry does unless
    /// the scan is restricted to ASCII.
    pub open spec fn entry_passes(&self, i: int, ascii_only: bool) -> bool {
        !ascii_only || is_ascii_printable(self.chars_view()[i])
    }

    /// Index of the best entry among the first `n`, scanning in catalog
    /// order and replacing the champion only on a strictly greater score,
    /// so the lowest index wins every tie; -1 when no entry takes part.
    pub open spec fn best_in_prefix(&self, emb: Seq<i32>, pl: int, ascii_only: bool, n: int) -> int
        decreases n,
    {
        if n <= 0 {
            -1
        } else {
            let b = self.best_in_prefix(emb, pl, ascii_only, n - 1);
            if !self.entry_passes(n - 1, ascii_only) {
                b
            } else if b < 0 {
                n - 1
            } else if self.entry_score(n - 1, emb, pl) > self.entry_score(b, emb, pl) {
                n - 1
            } else {
                b
            }
        }
    }

    /// Builds a catalog from a character list, an embedding dimension, a
    /// flat row-major embedding table and a parallel luminosity list,
    /// rejecting any length mismatch. The edge weight starts at pure
    /// embedding matching.
    pub fn new(
        chars: Vec<char>,
        dim: usize,
        embeddings: Vec<i32>,
        luminosities: Vec<i32>,
    ) -> (r: Result<EmbeddingMatcher, PicunicError>)
        requires
            dim <= DIM_MAX,
        ensures
            embeddings@.len() != chars@.len() * dim ==> r == Err::<EmbeddingMatcher, PicunicError>(
                PicunicError::EmbeddingLen {
                    chars: chars@.len() as usize,
                    dim: dim,
                    actual: embeddings@.len() as usize,
                },
            ),
            embeddings@.len() == chars@.len() * dim && luminosities@.len() != chars@.len() ==> r
                == Err::<EmbeddingMatcher, PicunicError>(
                PicunicError::LuminosityCount {
                    expected: chars@.len() as usize,
                    actual: luminosities@.len() as usize,
                },
            ),
            embeddings@.len() == chars@.len() * dim && luminosities@.len() == chars@.len() ==> {
                &&& r is Ok
                &&& r->Ok_0.wf()
                &&& r->Ok_0.chars_view() == chars@
                &&& r->Ok_0.spec_dim() == dim
                &&& r->Ok_0.spec_edge_weight() == 1_000_000
                &&& forall|i: int|
                    0 <= i < chars@.len() ==> #[trigger] r->Ok_0.emb_at(i) == embeddings@.subrange(
                        i * dim,
                        i * dim + dim,
                    )
                &&& forall|i: int|
                    0 <= i < chars@.len() ==> #[trigger] r->Ok_0.lum_at(i) == luminosities@[i]
            },
    {
        let n: usize = chars.len();
        proof {
            assert(n * dim < 0x1_0000_0000_0000_0000_0000_0000_0000_0000) by (nonlinear_arith)
                requires
                    0 <= n < 0x1_0000_0000_0000_0000,
                    0 <= dim < 0x1_0000_0000_0000_0000,
            ;
        }
        if embeddings.len() as u128 != n as u128 * dim as u128 {
            return Err(
                PicunicError::EmbeddingLen { chars: n, dim, actual: embeddings.len() },
            );
        }
        if luminosities.len() != n {
            return Err(
                PicunicError::LuminosityCount { expected: n, actual: luminosities.len() },
            );
        }
        let mut rows: Vec<Vec<i32>> = Vec::new();
        let mut i: usize = 0;
        while i < n
            invariant
                i <= n,
                n == chars@.len(),
                embeddings@.len() == n * dim,
                embeddings@.len() <= usize::MAX,
                dim <= DIM_MAX,
                rows@.len() == i,
                forall|k: int| 0 <= k < i ==> (#[trigger] rows@[k])@ == embeddings@.subrange(
                    k * dim,
                    k * dim + dim,
                ),
            decreases n - i,
        {
            proof {
                assert(i * dim + dim <= n * dim && 0 <= i * dim) by (nonlinear_arith)
                    requires
                        0 <= i < n,
                        0 <= dim,
                ;
            }
            let base: usize = i * dim;
            let mut row: Vec<i32> = Vec::new();
            let mut j: usize = 0;
            while j < dim
                invariant
                    j <= dim,
                    base == i * dim,
                    base + dim <= embeddings@.len(),
                    embeddings@.len() <= usize::MAX,
                    row@.len() == j,
                    forall|k: int| 0 <= k < j ==> #[trigger] row@[k] == embeddings@[base + k],
                decreases dim - j,
            {
                row.push(embeddings[base + j]);
                j = j + 1;
            }
            proof {
                assert(row@ =~= embeddings@.subrange(i * dim, i * dim + dim));
            }
            rows.push(row);
            i = i + 1;
        }
        proof {
            assert forall|k: int| 0 <= k < n implies (#[trigger] rows@[k])@.len() == dim by {
                assert(0 <= k * dim && k * dim + dim <= embeddings@.len()) by (nonlinear_arith)
                    requires
                        0 <= k < n,
                        0 <= dim,
                        embeddings@.len() == n * dim,
                ;
                assert(rows@[k]@ == embeddings@.subrange(k * dim, k * dim + dim));
            }
        }
        Ok(
            EmbeddingMatcher {
                chars,
                embeddings: rows,
                luminosities,
                dim,
                edge_weight: 1_000_000,
            },
        )
    }

    /// Sets the blend between embedding and luminosity similarity,
    /// clamped to micro-unit range: 1_000_000 is pure embedding matching,
    /// 0 pure luminosity matching.
    pub fn set_edge_weight(&mut self, weight: i32)
        requires
            old(self).wf(),
        ensures
            final(self).wf(),
            final(self).spec_edge_weight() == (if weight < 0 {
                0i32
            } else if weight > 1_000_000 {
                1_000_000i32
            } else {
                weight
            }),
            final(self).chars_view() == old(self).chars_view(),
            final(self).entries() == old(self).entries(),
            final(self).spec_dim() == old(self).spec_dim(),
    {
        let w: i32 = if weight < 0 {
            0
        } else if weight > MICRO {
            MICRO
        } else {
            weight
        };
        self.edge_weight = w;
        proof {
            assert forall|i: int|
                0 <= i < self.spec_len() implies (#[trigger] self.emb_at(i)).len()
                == self.spec_dim() by {
                assert(self.emb_at(i) == old(self).emb_at(i));
            }
            assert(self.entries() =~= old(self).entries());
        }
    }

    /// Number of catalog entries.
    pub fn len(&self) -> (n: usize)
        ensures
            n == self.spec_len(),
    {
        self.chars.len()
    }

    /// Index of the best-scoring entry among those that pass the scan
    /// filter; `None` when none does.
    fn scan(&self, embedding: &Vec<i32>, patch_lum: i32, ascii_only: bool) -> (r: Option<usize>)
        requires
            self.wf(),
            embedding@.len() == self.spec_dim(),
        ensures
            r is None ==> self.best_in_prefix(
                embedding@,
                patch_lum as int,
                ascii_only,
                self.spec_len(),
            ) == -1,
            r is Some ==> r->Some_0 == self.best_in_prefix(
                embedding@,
                patch_lum as int,
                ascii_only,
                self.spec_len(),
            ),
    {
        let n: usize = self.chars.len();
        let mut best_idx: usize = 0;
        let mut best_score: i128 = 0;
        let mut found: bool = false;
        let mut i: usize = 0;
        while i < n
            invariant
                i <= n,
                n == self.spec_len(),
                self.wf(),
                embedding@.len() == self.spec_dim(),
                !found ==> self.best_in_prefix(
                    embedding@,
                    patch_lum as int,
                    ascii_only,
                    i as int,
                ) == -1,
                found ==> {
                    &&& 0 <= best_idx < i
                    &&& best_idx == self.best_in_prefix(
                        embedding@,
                        patch_lum as int,
                        ascii_only,
                        i as int,
                    )
                    &&& best_score == self.entry_score(
                        best_idx as int,
                        embedding@,
                        patch_lum as int,
                    )
                },
            decreases n - i,
        {
            let passes: bool = if ascii_only {
                let c: char = self.chars[i];
                c as u32 >= 0x20 && c as u32 <= 0x7e
            } else {
                true
            };
            if passes {
                let score: i128 = self.score_entry(i, embedding, patch_lum);
                if !found || score > best_score {
                    best_idx = i;
                    best_score = score;
                    found = true;
                }
            }
            i = i + 1;
        }
        if found {
            Some(best_idx)
        } else {
            None
        }
    }

    /// The exact integer score of entry `i`, computed in 128-bit
    /// arithmetic.
    fn score_entry(&self, i: usize, embedding: &Vec<i32>, patch_lum: i32) -> (score: i128)
        requires
            self.wf(),
            embedding@.len() == self.spec_dim(),
            i < self.spec_len(),
        ensures
            score == self.entry_score(i as int, embedding@, patch_lum as int),
    {
        let row: &Vec<i32> = &self.embeddings[i];
        proof {
            assert(self.emb_at(i as int) == row@);
        }
        let d: i128 = dot_product(row, embedding);
        proof {
            lemma_dot_to_bound(row@, embedding@, row@.len() as int);
        }
        let el: i32 = self.luminosities[i];
        let diff: i64 = if patch_lum as i64 >= el as i64 {
            patch_lum as i64 - el as i64
        } else {
            el as i64 - patch_lum as i64
        };
        let lum_sim: i128 = 1_000_000i128 - diff as i128;
        let w: i128 = self.edge_weight as i128;
        proof {
            let dd = d + 1_000_000_000_000;
            assert(-0x8000_0000_0000_0000_0000_0000_0000 <= w * dd
                <= 0x8000_0000_0000_0000_0000_0000_0000) by (nonlinear_arith)
                requires
                    0 <= w <= 1_000_000,
                    -0x5_0000_0000_0000_0000_0000 <= dd <= 0x5_0000_0000_0000_0000_0000,
            ;
            assert(-0x8000_0000_0000_0000_0000_0000_0000 <= (1_000_000 - w) * (lum_sim
                * 2_000_000) <= 0x8000_0000_0000_0000_0000_0000_0000) by (nonlinear_arith)
                requires
                    0 <= w <= 1_000_000,
                    -0x10_0000_0000_0000_0000 <= lum_sim * 2_000_000 <= 0x10_0000_0000_0000_0000,
            ;
        }
        w * (d + 1_000_000_000_000i128) + (1_000_000i128 - w) * (lum_sim * 2_000_000i128)
    }
}

impl EmbeddingMatcher {
    /// The character whose catalog entry best matches the given patch
    /// embedding and luminosity. Fails exactly when the embedding's
    /// length is not the catalog's dimension, or the catalog is empty;
    /// on tied scores the lowest catalog index wins.
    pub fn find_best_match(&self, embedding: &Vec<i32>, patch_lum: i32) -> (r: Result<
        char,
        PicunicError,
    >)
        requires
            self.wf(),
        ensures
            embedding@.len() != self.spec_dim() ==> r == Err::<char, PicunicError>(
                PicunicError::DimensionMismatch {
                    expected: self.spec_dim(),
                    actual: embedding@.len() as usize,
                },
            ),
            embedding@.len() == self.spec_dim() && self.spec_len() == 0 ==> r == Err::<
                char,
                PicunicError,
            >(PicunicError::EmptyCatalog),
            embedding@.len() == self.spec_dim() && self.spec_len() > 0 ==> r == Ok::<
                char,
                PicunicError,
            >(
                self.chars_view()[self.best_in_prefix(
                    embedding@,
                    patch_lum as int,
                    false,
                    self.spec_len(),
                )],
            ),
    {
        if embedding.len() != self.dim {
            return Err(
                PicunicError::DimensionMismatch { expected: self.dim, actual: embedding.len() },
            );
        }
        if self.chars.len() == 0 {
            return Err(PicunicError::EmptyCatalog);
        }
        proof {
            self.lemma_best_in_range(embedding@, patch_lum as int, false, self.spec_len());
        }
        let best = self.scan(embedding, patch_lum, false);
        match best {
            Some(i) => Ok(self.chars[i]),
            None => Err(PicunicError::EmptyCatalog),
        }
    }

    /// As `find_best_match`, but optionally restricting the scan to
    /// entries in the ASCII printable range. When the restriction leaves
    /// no candidate, the first entry of the nonempty catalog is returned
    /// unchanged, as the scan's champion never moved off index 0.
    pub fn find_best_match_filtered(
        &self,
        embedding: &Vec<i32>,
        patch_lum: i32,
        ascii_only: bool,
    ) -> (r: Result<char, PicunicError>)
        requires
            self.wf(),
        ensures
            embedding@.len() != self.spec_dim() ==> r == Err::<char, PicunicError>(
                PicunicError::DimensionMismatch {
                    expected: self.spec_dim(),
                    actual: embedding@.len() as usize,
                },
            ),
            embedding@.len() == self.spec_dim() && self.spec_len() == 0 ==> r == Err::<
                char,
                PicunicError,
            >(PicunicError::EmptyCatalog),
            embedding@.len() == self.spec_dim() && self.spec_len() > 0 ==> {
                let b = self.best_in_prefix(embedding@, patch_lum as int, ascii_only, self.spec_len());
                r == Ok::<char, PicunicError>(
                    self.chars_view()[if b < 0 {
                        0
                    } else {
                        b
                    }],
                )
            },
    {
        if embedding.len() != self.dim {
            return Err(
                PicunicError::DimensionMismatch { expected: self.dim, actual: embedding.len() },
            );
        }
        if self.chars.len() == 0 {
            return Err(PicunicError::EmptyCatalog);
        }
        proof {
            self.lemma_best_in_range(embedding@, patch_lum as int, ascii_only, self.spec_len());
        }
        let best = self.scan(embedding, patch_lum, ascii_only);
        match best {
            Some(i) => Ok(self.chars[i]),
            None => Ok(self.chars[0]),
        }
    }

    /// The scan result is an index of a passing entry within the prefix,
    /// or -1 exactly when no entry of the prefix passes; with no ASCII
    /// restriction a nonempty prefix always yields an index.
    pub proof fn lemma_best_in_range(&self, emb: Seq<i32>, pl: int, ascii_only: bool, n: int)
        requires
            0 <= n,
        ensures
            -1 <= self.best_in_prefix(emb, pl, ascii_only, n) < n,
            self.best_in_prefix(emb, pl, ascii_only, n) == -1 <==> (forall|j: int|
                0 <= j < n ==> !self.entry_passes(j, ascii_only)),
            self.best_in_prefix(emb, pl, ascii_only, n) >= 0 ==> self.entry_passes(
                self.best_in_prefix(emb, pl, ascii_only, n),
                ascii_only,
            ),
            !ascii_only && n >= 1 ==> self.best_in_prefix(emb, pl, ascii_only, n) >= 0,
        decreases n,
    {
        if n > 0 {
            self.lemma_best_in_range(emb, pl, ascii_only, n - 1);
        }
    }

    /// The champion beats every passing entry of the prefix, and beats
    /// every passing entry before it strictly: exact ties are resolved to
    /// the lowest catalog index, deterministically.
    pub proof fn lemma_best_is_max(&self, emb: Seq<i32>, pl: int, ascii_only: bool, n: int)
        requires
            self.best_in_prefix(emb, pl, ascii_only, n) >= 0,
        ensures
            forall|j: int|
                0 <= j < n && self.entry_passes(j, ascii_only) ==> #[trigger] self.entry_score(
                    j,
                    emb,
                    pl,
                ) <= self.entry_score(self.best_in_prefix(emb, pl, ascii_only, n), emb, pl),
            forall|j: int|
                0 <= j < self.best_in_prefix(emb, pl, ascii_only, n) && self.entry_passes(
                    j,
                    ascii_only,
                ) ==> #[trigger] self.entry_score(j, emb, pl) < self.entry_score(
                    self.best_in_prefix(emb, pl, ascii_only, n),
                    emb,
                    pl,
                ),
        decreases n,
    {
        if n > 0 {
            let b = self.best_in_prefix(emb, pl, ascii_only, n - 1);
            if b >= 0 {
                self.lemma_best_is_max(emb, pl, ascii_only, n - 1);
            } else {
                self.lemma_best_in_range(emb, pl, ascii_only, n - 1);
            }
        }
    }

    /// At edge weight 1.0 the luminosity input has no effect: the scan
    /// picks the same entry for any two patch luminosities.
    pub proof fn lemma_weight_one_ignores_luminosity(
        &self,
        emb: Seq<i32>,
        pl1: int,
        pl2: int,
        ascii_only: bool,
        n: int,
    )
        requires
            self.spec_edge_weight() == 1_000_000,
        ensures
            self.best_in_prefix(emb, pl1, ascii_only, n) == self.best_in_prefix(
                emb,
                pl2,
                ascii_only,
                n,
            ),
        decreases n,
    {
        if n > 0 {
            self.lemma_weight_one_ignores_luminosity(emb, pl1, pl2, ascii_only, n - 1);
            assert forall|i: int, pl: int| 0 <= i implies #[trigger] self.entry_score(i, emb, pl)
                == 1_000_000 * (dot(self.emb_at(i), emb) + 1_000_000_000_000) by {
                assert((1_000_000 - 1_000_000) * (lum_similarity(pl, self.lum_at(i) as int)
                    * 2_000_000) == 0) by (nonlinear_arith);
            }
        }
    }

    /// At edge weight 0.0 the embedding input has no effect: the scan
    /// picks the same entry for any two patch embeddings.
    pub proof fn lemma_weight_zero_ignores_embedding(
        &self,
        emb1: Seq<i32>,
        emb2: Seq<i32>,
        pl: int,
        ascii_only: bool,
        n: int,
    )
        requires
            self.spec_edge_weight() == 0,
        ensures
            self.best_in_prefix(emb1, pl, ascii_only, n) == self.best_in_prefix(
                emb2,
                pl,
                ascii_only,
                n,
            ),
        decreases n,
    {
        if n > 0 {
            self.lemma_weight_zero_ignores_embedding(emb1, emb2, pl, ascii_only, n - 1);
            assert forall|i: int, emb: Seq<i32>| 0 <= i implies #[trigger] self.entry_score(
                i,
                emb,
                pl,
            ) == 1_000_000 * (lum_similarity(pl, self.lum_at(i) as int) * 2_000_000) by {
                assert(0 * (dot(self.emb_at(i), emb) + 1_000_000_000_000) == 0)
                    by (nonlinear_arith);
            }
        }
    }
}

impl EmbeddingMatcher {
    /// Keeps only the entries in the ASCII printable range, preserving
    /// relative order and the alignment of characters, embedding rows and
    /// luminosities.
    pub fn filter_ascii(&mut self)
        requires
            old(self).wf(),
        ensures
            final(self).wf(),
            final(self).entries() == filtered_entries(old(self).entries(), true),
            final(self).spec_dim() == old(self).spec_dim(),
            final(self).spec_edge_weight() == old(self).spec_edge_weight(),
    {
        self.retain(true);
    }

    /// Keeps only the monochrome-safe entries, preserving relative order
    /// and the alignment of characters, embedding rows and luminosities.
    pub fn filter_monochrome(&mut self)
        requires
            old(self).wf(),
        ensures
            final(self).wf(),
            final(self).entries() == filtered_entries(old(self).entries(), false),
            final(self).spec_dim() == old(self).spec_dim(),
            final(self).spec_edge_weight() == old(self).spec_edge_weight(),
    {
        self.retain(false);
    }

    /// Rebuilds the three parallel arrays, keeping the entries whose
    /// character satisfies the chosen predicate.
    fn retain(&mut self, ascii: bool)
        requires
            old(self).wf(),
        ensures
            final(self).wf(),
            final(self).entries() == filtered_entries(old(self).entries(), ascii),
            final(self).spec_dim() == old(self).spec_dim(),
            final(self).spec_edge_weight() == old(self).spec_edge_weight(),
    {
        let n: usize = self.chars.len();
        let mut new_chars: Vec<char> = Vec::new();
        let mut new_rows: Vec<Vec<i32>> = Vec::new();
        let mut new_lums: Vec<i32> = Vec::new();
        let mut i: usize = 0;
        while i < n
            invariant
                i <= n,
                n == self.spec_len(),
                self.wf(),
                *self == *old(self),
                new_chars@.len() == new_rows@.len(),
                new_chars@.len() == new_lums@.len(),
                forall|k: int|
                    0 <= k < new_rows@.len() ==> (#[trigger] new_rows@[k])@.len()
                        == self.spec_dim(),
                Seq::new(
                    new_chars@.len(),
                    |k: int| (new_chars@[k], new_rows@[k]@, new_lums@[k]),
                ) == filtered_entries(self.entries().take(i as int), ascii),
            decreases n - i,
        {
            let c: char = self.chars[i];
            let keep: bool = if ascii {
                c as u32 >= 0x20 && c as u32 <= 0x7e
            } else {
                let cp: u32 = c as u32;
                (cp >= 0x20 && cp <= 0x7e) || (cp >= 0xa0 && cp <= 0xff) || (cp >= 0x2500 && cp
                    <= 0x257f) || (cp >= 0x2580 && cp <= 0x259f) || (cp >= 0x25a0 && cp <= 0x25ff)
            };
            let ghost before = Seq::new(
                new_chars@.len(),
                |k: int| (new_chars@[k], new_rows@[k]@, new_lums@[k]),
            );
            if keep {
                new_chars.push(c);
                new_rows.push(copy_row(&self.embeddings[i]));
                new_lums.push(self.luminosities[i]);
            }
            proof {
                let after = Seq::new(
                    new_chars@.len(),
                    |k: int| (new_chars@[k], new_rows@[k]@, new_lums@[k]),
                );
                let entry = self.entry_at(i as int);
                assert(keep == filter_pred(ascii, entry.0));
                if keep {
                    assert(after =~= before.push(entry));
                }
                assert(self.entries().take(i as int + 1) =~= self.entries().take(i as int).push(
                    entry,
                ));
                lemma_filtered_entries_push(self.entries().take(i as int), ascii, entry);
            }
            i = i + 1;
        }
        proof {
            assert(self.entries().take(n as int) =~= self.entries());
        }
        self.chars = new_chars;
        self.embeddings = new_rows;
        self.luminosities = new_lums;
        proof {
            assert(self.entries() =~= Seq::new(
                self.chars_view().len(),
                |k: int| (self.chars@[k], self.embeddings@[k]@, self.luminosities@[k]),
            ));
        }
    }
}

/// A copy of one embedding row.
fn copy_row(src: &Vec<i32>) -> (r: Vec<i32>)
    ensures
        r@ == src@,
{
    let n: usize = src.len();
    let mut r: Vec<i32> = Vec::new();
    let mut i: usize = 0;
    while i < n
        invariant
            i <= n,
            n == src@.len(),
            r@.len() == i,
            forall|k: int| 0 <= k < i ==> #[trigger] r@[k] == src@[k],
        decreases n - i,
    {
        r.push(src[i]);
        i = i + 1;
    }
    proof {
        assert(r@ =~= src@);
    }
    r
}

/// Filtering distributes over appending one entry: the entry stays
/// exactly when its character satisfies the filter.
proof fn lemma_filtered_entries_push(
    s: Seq<(char, Seq<i32>, i32)>,
    ascii: bool,
    e: (char, Seq<i32>, i32),
)
    ensures
        filtered_entries(s.push(e), ascii) == (if filter_pred(ascii, e.0) {
            filtered_entries(s, ascii).push(e)
        } else {
            filtered_entries(s, ascii)
        }),
{
    let s2 = s.push(e);
    assert(s2.drop_last() =~= s);
    assert(s2.last() == e);
}

/// Dot product of two equal-length component vectors, exact in 128-bit
/// arithmetic.
fn dot_product(a: &Vec<i32>, b: &Vec<i32>) -> (d: i128)
    requires
        a@.len() == b@.len(),
        a@.len() <= DIM_MAX,
    ensures
        d == dot(a@, b@),
{
    let n: usize = a.len();
    let mut acc: i128 = 0;
    let mut i: usize = 0;
    while i < n
        invariant
            i <= n,
            n == a@.len(),
            a@.len() == b@.len(),
            a@.len() <= DIM_MAX,
            acc == dot_to(a@, b@, i as int),
        decreases n - i,
    {
        proof {
            lemma_dot_to_bound(a@, b@, i as int);
            lemma_dot_to_bound(a@, b@, i as int + 1);
        }
        acc = acc + a[i] as i128 * b[i] as i128;
        i = i + 1;
    }
    acc
}

} // verus!
