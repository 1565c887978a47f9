//! The labeled photo gallery: label → ordered photos, with labels kept in
//! lexicographic order.

use vstd::prelude::*;
use vstd::string::*;
use crate::order::{lex_lt, label_less, lemma_lex_irreflexive, lemma_lex_total, lemma_lex_transitive, strictly_sorted, lemma_sorted_unique};
use crate::raster::{Layout, Raster, sample_count};
use crate::codec::{rgb_decoding, decode_rgb, png_encoding, encode_png};
use crate::menu::Menu;
use crate::distance::{sq_dist, squared_distance, lemma_distance_self};
use crate::vote::{K, is_winner, majority_label, votes, lemma_strict_majority_wins, lemma_winner_has_votes};

verus! {

/// What can go wrong while loading, extending or consulting a gallery.
#[derive(Debug, PartialEq, Eq)]
pub enum PhotoError {
    /// The project path is missing or not a directory.
    NotADirectory(String),
    /// A directory was expected where a regular file stands.
    PathConflict(String),
    /// The label is not part of the gallery.
    UndefinedLabel(String),
    /// A stored photo differs in dimensions or layout from the query.
    DimensionMismatch,
    /// The gallery holds fewer photos than the number of voting neighbours.
    InsufficientSamples,
    /// The file at this path could not be decoded as an image.
    ImageDecode(String),
    /// Reading, writing or encoding failed.
    Io(String),
}

/// Every photo of the first `n` labels, tagged with its label's index, in
/// label order and then in insertion order.
pub open spec fn flatten_upto(ps: Seq<Seq<Raster>>, n: int) -> Seq<(usize, Raster)>
    decreases n,
{
    if n <= 0 {
        seq![]
    } else {
        flatten_upto(ps, n - 1) + ps[n - 1].map_values(|r: Raster| ((n - 1) as usize, r))
    }
}

/// Distance from the query samples `q` to each candidate.
pub open spec fn candidate_distances(q: Seq<u8>, c: Seq<(usize, Raster)>) -> Seq<u128> {
    Seq::new(c.len(), |j: int| sq_dist(q, c[j].1.samples@) as u128)
}

/// The label index of each candidate.
pub open spec fn candidate_labels(c: Seq<(usize, Raster)>) -> Seq<usize> {
    c.map_values(|x: (usize, Raster)| x.0)
}

proof fn lemma_flatten_prefix(ps: Seq<Seq<Raster>>, m: int, n: int, t: int)
    requires
        0 <= m <= n,
        0 <= t < flatten_upto(ps, m).len(),
    ensures
        t < flatten_upto(ps, n).len(),
        flatten_upto(ps, n)[t] == flatten_upto(ps, m)[t],
    decreases n - m,
{
    if m < n {
        lemma_flatten_prefix(ps, m, n - 1, t);
    }
}

/// A file found in a label's directory, with its path and contents.
pub struct PhotoFile {
    pub path: String,
    pub bytes: Vec<u8>,
}

/// A label directory: its name and the files it holds.
pub struct LabelDir {
    pub label: String,
    pub files: Vec<PhotoFile>,
}

/// The file decodes to a well-formed RGB image.
pub open spec fn readable(f: PhotoFile) -> bool {
    match rgb_decoding(f.bytes@) {
        Some((w, h, s)) => s.len() == sample_count(Layout::Rgb, w, h),
        None => false,
    }
}

/// `r` is the RGB image decoded from `f`.
pub open spec fn decodes_to(f: PhotoFile, r: Raster) -> bool {
    &&& r.wf()
    &&& r.layout == Layout::Rgb
    &&& rgb_decoding(f.bytes@) == Some((r.width as nat, r.height as nat, r.samples@))
}

/// `ps` are the images decoded from `files`, one for one.
pub open spec fn decodes_all(files: Seq<PhotoFile>, ps: Seq<Raster>) -> bool {
    &&& ps.len() == files.len()
    &&& forall|j: int| 0 <= j < ps.len() ==> decodes_to(files[j], #[trigger] ps[j])
}

/// The decimal digit `d`.
pub open spec fn digit(d: nat) -> char {
    seq!['0', '1', '2', '3', '4', '5', '6', '7', '8', '9'][d as int]
}

/// The decimal representation of `n`, without leading zeros.
pub open spec fn decimal(n: nat) -> Seq<char>
    decreases n,
{
    if n < 10 {
        seq![digit(n)]
    } else {
        decimal(n / 10).push(digit(n % 10))
    }
}

/// Name of the `n`-th photo file of a label: `photo_<n>.png`.
pub open spec fn photo_file_name(n: nat) -> Seq<char> {
    seq!['p', 'h', 'o', 't', 'o', '_'] + decimal(n) + seq!['.', 'p', 'n', 'g']
}

/// Relies on std's `ToString` through `Display` for `usize`: the decimal
/// digits of `n`, without sign or leading zeros.
#[verifier::external_body]
fn decimal_text(n: usize) -> (r: String)
    ensures
        r@ == decimal(n as nat),
{
    n.to_string()
}

/// The PNG file of `img`; fails with `Io` when the encoder reports an error,
/// which it does not for an image with at least one pixel.
pub fn encode_photo(img: &Raster) -> (r: Result<Vec<u8>, PhotoError>)
    requires
        img.wf(),
    ensures
        img.width > 0 && img.height > 0 ==> r is Ok,
        r matches Ok(b) ==> b@ == png_encoding(
            img.samples@,
            img.width as nat,
            img.height as nat,
            img.layout.spec_channels(),
        ),
        r matches Err(e) ==> e is Io,
{
    match encode_png(img) {
        Some(b) => Ok(b),
        None => Err(PhotoError::Io(String::from_str("PNG encoding failed"))),
    }
}

/// Decodes one file as an RGB image.
fn decode_photo(f: &PhotoFile) -> (r: Result<Raster, PhotoError>)
    ensures
        r is Ok <==> readable(*f),
        r matches Ok(img) ==> decodes_to(*f, img),
        r matches Err(e) ==> e matches PhotoError::ImageDecode(p) && p@ == f.path@,
{
    match decode_rgb(&f.bytes) {
        Some((w, h, samples)) => match Raster::new(Layout::Rgb, w, h, samples) {
            Some(img) => Ok(img),
            None => Err(PhotoError::ImageDecode(f.path.clone())),
        },
        None => Err(PhotoError::ImageDecode(f.path.clone())),
    }
}

/// Decodes every file of a label directory, in order.
fn decode_dir(files: &Vec<PhotoFile>) -> (r: Result<Vec<Raster>, PhotoError>)
    ensures
        r is Ok <==> forall|j: int| 0 <= j < files@.len() ==> readable(#[trigger] files@[j]),
        r matches Ok(ps) ==> decodes_all(files@, ps@),
        r matches Err(e) ==> exists|j: int|
            0 <= j < files@.len() && !readable(#[trigger] files@[j]) && (e matches PhotoError::ImageDecode(
                p,
            ) && p@ == files@[j].path@),
{
    let mut ps: Vec<Raster> = Vec::new();
    let mut j: usize = 0;
    while j < files.len()
        invariant
            j <= files@.len(),
            decodes_all(files@.take(j as int), ps@),
            forall|k: int| 0 <= k < j ==> readable(#[trigger] files@[k]),
        decreases files@.len() - j,
    {
        match decode_photo(&files[j]) {
            Ok(img) => {
                ps.push(img);
                assert(files@.take(j as int + 1)[j as int] == files@[j as int]);
            },
            Err(e) => {
                return Err(e);
            },
        }
        j = j + 1;
    }
    assert(files@.take(j as int) =~= files@);
    Ok(ps)
}

/// The last of the first `n` directories that is named `l`, or -1.
pub open spec fn last_dir(dirs: Seq<LabelDir>, l: Seq<char>, n: int) -> int
    decreases n,
{
    if n <= 0 {
        -1
    } else if dirs[n - 1].label@ == l {
        n - 1
    } else {
        last_dir(dirs, l, n - 1)
    }
}

proof fn lemma_last_dir(dirs: Seq<LabelDir>, l: Seq<char>, n: int)
    requires
        0 <= n <= dirs.len(),
    ensures
        last_dir(dirs, l, n) == -1 <==> (forall|d: int| 0 <= d < n ==> #[trigger] dirs[d].label@ != l),
        last_dir(dirs, l, n) != -1 ==> 0 <= last_dir(dirs, l, n) < n && dirs[last_dir(dirs, l, n)].label@ == l
            && forall|d: int| last_dir(dirs, l, n) < d < n ==> #[trigger] dirs[d].label@ != l,
    decreases n,
{
    if n > 0 {
        lemma_last_dir(dirs, l, n - 1);
    }
}

proof fn lemma_flatten_label_bound(ps: Seq<Seq<Raster>>, n: int, t: int)
    requires
        0 <= n <= ps.len(),
        ps.len() <= usize::MAX,
        0 <= t < flatten_upto(ps, n).len(),
    ensures
        flatten_upto(ps, n)[t].0 < n,
        ps[flatten_upto(ps, n)[t].0 as int].len() > 0,
    decreases n,
{
    if n > 0 {
        let prev = flatten_upto(ps, n - 1);
        let tail = ps[n - 1].map_values(|r: Raster| ((n - 1) as usize, r));
        assert(flatten_upto(ps, n) == prev + tail);
        if t >= prev.len() {
            assert(flatten_upto(ps, n)[t] == tail[t - prev.len()]);
            assert(tail[t - prev.len()] == ((n - 1) as usize, ps[n - 1][t - prev.len()]));
            assert(ps[n - 1].len() > 0);
        } else {
            assert(flatten_upto(ps, n)[t] == prev[t]);
            lemma_flatten_label_bound(ps, n - 1, t);
        }
    }
}

/// A label with its reference photos.
pub struct LabeledPhotoGallery {
    project_name: String,
    labels: Vec<String>,
    photos: Vec<Vec<Raster>>,
}

impl LabeledPhotoGallery {
    /// Labels are strictly increasing (hence unique), each has a photo list,
    /// and every photo is well formed.
    pub closed spec fn wf(&self) -> bool {
        &&& self.labels@.len() == self.photos@.len()
        &&& self.labels@.len() <= usize::MAX
        &&& forall|i: int, j: int|
            0 <= i < j < self.labels@.len() ==> lex_lt(
                #[trigger] self.labels@[i]@,
                #[trigger] self.labels@[j]@,
            )
        &&& forall|i: int, j: int|
            0 <= i < self.photos@.len() && 0 <= j < self.photos@[i]@.len()
                ==> (#[trigger] self.photos@[i]@[j]).wf()
    }

    /// The project directory's name.
    pub closed spec fn project(&self) -> Seq<char> {
        self.project_name@
    }

    /// The labels, in lexicographic order.
    pub closed spec fn label_seq(&self) -> Seq<Seq<char>> {
        self.labels@.map_values(|s: String| s@)
    }

    /// The photo list of each label, in the order of `label_seq`.
    pub closed spec fn photo_lists(&self) -> Seq<Seq<Raster>> {
        self.photos@.map_values(|v: Vec<Raster>| v@)
    }

    /// How the views of a well-formed gallery fit together: the labels are
    /// strictly sorted, `has_label` holds of them alone, and `lookup` gives
    /// each label its photo list.
    pub proof fn lemma_contents(&self)
        requires
            self.wf(),
        ensures
            self.label_seq().len() == self.photo_lists().len(),
            strictly_sorted(self.label_seq()),
            forall|l: Seq<char>| #[trigger] self.has_label(l) <==> self.label_seq().contains(l),
            forall|i: int|
                0 <= i < self.label_seq().len() ==> self.lookup(#[trigger] self.label_seq()[i])
                    == Some(self.photo_lists()[i]),
            forall|l: Seq<char>| #[trigger] self.lookup(l) is Some <==> self.has_label(l),
            forall|i: int, j: int|
                0 <= i < self.photo_lists().len() && 0 <= j < self.photo_lists()[i].len()
                    ==> (#[trigger] self.photo_lists()[i][j]).wf(),
    {
        let ls = self.label_seq();
        assert forall|i: int, j: int| 0 <= i < j < ls.len() implies lex_lt(
            #[trigger] ls[i],
            #[trigger] ls[j],
        ) by {
            assert(lex_lt(self.labels@[i]@, self.labels@[j]@));
        }
        assert forall|l: Seq<char>| #[trigger] self.has_label(l) <==> ls.contains(l) by {
            if self.has_label(l) {
                let i = choose|i: int| 0 <= i < self.labels@.len() && #[trigger] self.labels@[i]@ == l;
                assert(ls[i] == l);
            }
            if ls.contains(l) {
                let i = choose|i: int| 0 <= i < ls.len() && ls[i] == l;
                assert(self.labels@[i]@ == l);
            }
        }
        assert forall|i: int| 0 <= i < ls.len() implies self.lookup(#[trigger] ls[i]) == Some(
            self.photo_lists()[i],
        ) by {
            self.lemma_lookup_at(i);
        }
        assert forall|i: int, j: int|
            0 <= i < self.photo_lists().len() && 0 <= j < self.photo_lists()[i].len()
            implies (#[trigger] self.photo_lists()[i][j]).wf() by {
            assert(self.photo_lists()[i] == self.photos@[i]@);
        }
    }

    /// Two galleries that hold the same photo list under every label have the
    /// same label order and the same candidates, so `label_for`, whose result
    /// depends on these alone, classifies every image alike in both.
    pub proof fn lemma_same_contents(&self, other: &Self)
        requires
            self.wf(),
            other.wf(),
            forall|l: Seq<char>| #[trigger] self.lookup(l) == other.lookup(l),
        ensures
            self.label_seq() == other.label_seq(),
            self.photo_lists() == other.photo_lists(),
            self.candidates() == other.candidates(),
    {
        self.lemma_contents();
        other.lemma_contents();
        assert forall|x: Seq<char>| self.label_seq().contains(x) <==> other.label_seq().contains(x) by {
            assert(self.lookup(x) == other.lookup(x));
            assert(self.has_label(x) <==> self.label_seq().contains(x));
            assert(other.has_label(x) <==> other.label_seq().contains(x));
        }
        lemma_sorted_unique(self.label_seq(), other.label_seq());
        assert forall|i: int| 0 <= i < self.photo_lists().len() implies self.photo_lists()[i]
            == other.photo_lists()[i] by {
            let l = self.label_seq()[i];
            assert(self.lookup(l) == other.lookup(l));
            assert(other.label_seq()[i] == l);
        }
        assert(self.photo_lists() =~= other.photo_lists());
    }

    /// The photos stored under label `l`, or `None` when `l` is no label.
    pub closed spec fn lookup(&self, l: Seq<char>) -> Option<Seq<Raster>> {
        if self.has_label(l) {
            Some(self.photos@[self.index_of(l)]@)
        } else {
            None
        }
    }

    /// `l` is one of the labels.
    pub closed spec fn has_label(&self, l: Seq<char>) -> bool {
        exists|i: int| 0 <= i < self.labels@.len() && #[trigger] self.labels@[i]@ == l
    }

    /// The index at which label `l` stands.
    pub closed spec fn index_of(&self, l: Seq<char>) -> int {
        choose|i: int| 0 <= i < self.labels@.len() && #[trigger] self.labels@[i]@ == l
    }

    /// A gallery for project `project_name` whose labels are `labels`, each
    /// with no photos yet. Repeated labels count once.
    pub fn with_labels(project_name: &str, labels: Vec<String>) -> (g: Self)
        ensures
            g.wf(),
            g.project() == project_name@,
            forall|l: Seq<char>|
                #[trigger] g.has_label(l) <==> exists|k: int|
                    0 <= k < labels@.len() && #[trigger] labels@[k]@ == l,
            forall|l: Seq<char>|
                #[trigger] g.lookup(l) == if exists|k: int|
                    0 <= k < labels@.len() && #[trigger] labels@[k]@ == l {
                    Some(Seq::<Raster>::empty())
                } else {
                    None
                },
    {
        let mut g = LabeledPhotoGallery {
            project_name: String::from_str(project_name),
            labels: Vec::new(),
            photos: Vec::new(),
        };
        let mut i: usize = 0;
        while i < labels.len()
            invariant
                i <= labels@.len(),
                g.wf(),
                g.project() == project_name@,
                forall|l: Seq<char>|
                    #[trigger] g.lookup(l) == if exists|k: int|
                        0 <= k < i && #[trigger] labels@[k]@ == l {
                        Some(Seq::<Raster>::empty())
                    } else {
                        None
                    },
            decreases labels@.len() - i,
        {
            let ghost pre = g;
            let label = labels[i].clone();
            g.set_photos(label, Vec::new());
            assert forall|l: Seq<char>| #[trigger]
                g.lookup(l) == if exists|k: int| 0 <= k < i + 1 && #[trigger] labels@[k]@ == l {
                    Some(Seq::<Raster>::empty())
                } else {
                    None
                } by {
                assert(pre.lookup(l) == g.lookup(l) || l == labels@[i as int]@);
                if l == labels@[i as int]@ {
                    assert(labels@[i as int]@ == l);
                }
            }
            i = i + 1;
        }
        assert forall|l: Seq<char>|
            #[trigger] g.has_label(l) <==> exists|k: int|
                0 <= k < labels@.len() && #[trigger] labels@[k]@ == l by {
            assert(g.lookup(l) is Some <==> g.has_label(l));
        }
        g
    }

    /// Builds the gallery of project `project_name` from the contents of its
    /// label directories: each directory's name is a label and each of its
    /// files a photo. Fails with `ImageDecode` and the file's path when a file
    /// is no readable image. Should two directories carry one name, the later
    /// one's photos are kept.
    pub fn from_disk(project_name: &str, dirs: Vec<LabelDir>) -> (r: Result<Self, PhotoError>)
        ensures
            r is Ok <==> forall|d: int, j: int|
                0 <= d < dirs@.len() && 0 <= j < dirs@[d].files@.len() ==> readable(
                    #[trigger] dirs@[d].files@[j],
                ),
            r matches Err(e) ==> exists|d: int, j: int|
                0 <= d < dirs@.len() && 0 <= j < dirs@[d].files@.len() && !readable(
                    #[trigger] dirs@[d].files@[j],
                ) && (e matches PhotoError::ImageDecode(p) && p@ == dirs@[d].files@[j].path@),
            r matches Ok(g) ==> {
                &&& g.wf()
                &&& g.project() == project_name@
                &&& forall|l: Seq<char>|
                    #[trigger] g.has_label(l) <==> exists|d: int|
                        0 <= d < dirs@.len() && #[trigger] dirs@[d].label@ == l
                &&& forall|l: Seq<char>|
                    #[trigger] g.has_label(l) ==> (g.lookup(l) matches Some(ps) && decodes_all(
                        dirs@[last_dir(dirs@, l, dirs@.len() as int)].files@,
                        ps,
                    ))
            },
    {
        let mut g = LabeledPhotoGallery {
            project_name: String::from_str(project_name),
            labels: Vec::new(),
            photos: Vec::new(),
        };
        let n = dirs.len();
        let mut i: usize = 0;
        while i < n
            invariant
                n == dirs@.len(),
                i <= n,
                g.wf(),
                g.project() == project_name@,
                forall|d: int, j: int|
                    0 <= d < i && 0 <= j < dirs@[d].files@.len() ==> readable(
                        #[trigger] dirs@[d].files@[j],
                    ),
                forall|l: Seq<char>|
                    #[trigger] g.has_label(l) <==> last_dir(dirs@, l, i as int) != -1,
                forall|l: Seq<char>|
                    #[trigger] g.has_label(l) ==> (g.lookup(l) matches Some(ps) && decodes_all(
                        dirs@[last_dir(dirs@, l, i as int)].files@,
                        ps,
                    )),
            decreases n - i,
        {
            let ghost pre = g;
            match decode_dir(&dirs[i].files) {
                Ok(ps) => {
                    let label = dirs[i].label.clone();
                    proof {
                        assert forall|j: int| 0 <= j < ps@.len() implies (#[trigger] ps@[j]).wf() by {
                            assert(decodes_to(dirs@[i as int].files@[j], ps@[j]));
                        }
                    }
                    g.set_photos(label, ps);
                    assert forall|l: Seq<char>|
                        #[trigger] g.has_label(l) <==> last_dir(dirs@, l, i as int + 1) != -1 by {
                        assert(g.lookup(l) == if l == dirs@[i as int].label@ {
                            Some(ps@)
                        } else {
                            pre.lookup(l)
                        });
                        assert(pre.has_label(l) <==> last_dir(dirs@, l, i as int) != -1);
                    }
                },
                Err(e) => {
                    return Err(e);
                },
            }
            i = i + 1;
        }
        proof {
            assert forall|l: Seq<char>|
                #[trigger] g.has_label(l) <==> exists|d: int|
                    0 <= d < dirs@.len() && #[trigger] dirs@[d].label@ == l by {
                lemma_last_dir(dirs@, l, n as int);
            }
        }
        Ok(g)
    }

    /// The labels, in lexicographic order.
    pub fn all_labels(&self) -> (r: Vec<String>)
        requires
            self.wf(),
        ensures
            r@.map_values(|s: String| s@) == self.label_seq(),
            forall|i: int, j: int| 0 <= i < j < r@.len() ==> lex_lt(#[trigger] r@[i]@, #[trigger] r@[j]@),
    {
        let mut r: Vec<String> = Vec::new();
        let mut i: usize = 0;
        while i < self.labels.len()
            invariant
                i <= self.labels@.len(),
                r@.len() == i,
                forall|k: int| 0 <= k < i ==> #[trigger] r@[k]@ == self.labels@[k]@,
            decreases self.labels@.len() - i,
        {
            r.push(self.labels[i].clone());
            i = i + 1;
        }
        assert(r@.map_values(|s: String| s@) =~= self.label_seq());
        r
    }

    /// A menu over the labels, in lexicographic order, with the first
    /// selected.
    pub fn make_menu(&self) -> (m: Menu)
        requires
            self.wf(),
            self.label_seq().len() > 0,
        ensures
            m.choice_seq() == self.label_seq(),
            m.index() == 0,
    {
        let labels = self.all_labels();
        Menu::from_choices(labels)
    }

    /// Number of photos stored under `label`, or `None` when it is no label.
    pub fn photo_count(&self, label: &str) -> (r: Option<usize>)
        requires
            self.wf(),
        ensures
            r is Some <==> self.has_label(label@),
            r matches Some(n) ==> (self.lookup(label@) matches Some(ps) && n == ps.len()),
    {
        match self.find_label(label) {
            Ok(i) => {
                proof {
                    self.lemma_lookup_at(i as int);
                }
                Some(self.photos[i].len())
            },
            Err(_) => {
                proof {
                    lemma_lex_irreflexive(label@);
                }
                None
            },
        }
    }

    /// Appends `img` to the photos of `label`; fails with `UndefinedLabel`,
    /// leaving the gallery unchanged, when `label` is no label.
    pub fn record_photo(&mut self, label: &str, img: Raster) -> (r: Result<(), PhotoError>)
        requires
            old(self).wf(),
            img.wf(),
        ensures
            final(self).wf(),
            r is Ok <==> old(self).has_label(label@),
            r matches Err(e) ==> e matches PhotoError::UndefinedLabel(s) && s@ == label@,
            r is Err ==> *final(self) == *old(self),
            final(self).label_seq() == old(self).label_seq(),
            final(self).project() == old(self).project(),
            forall|l: Seq<char>|
                #[trigger] final(self).lookup(l) == if l == label@ && old(self).has_label(l) {
                    Some(old(self).lookup(l)->Some_0.push(img))
                } else {
                    old(self).lookup(l)
                },
    {
        match self.find_label(label) {
            Ok(i) => {
                let ghost pre = *self;
                proof {
                    pre.lemma_lookup_at(i as int);
                }
                let mut ps = self.photos.remove(i);
                ps.push(img);
                let ghost newps = ps@;
                self.photos.insert(i, ps);
                assert(self.photos@ =~= pre.photos@.update(i as int, self.photos@[i as int]));
                assert(self.labels@ == pre.labels@);
                assert(self.label_seq() =~= pre.label_seq());
                assert forall|a: int, b: int|
                    0 <= a < self.photos@.len() && 0 <= b < self.photos@[a]@.len()
                    implies (#[trigger] self.photos@[a]@[b]).wf() by {
                    if a == i {
                        if b < pre.photos@[a]@.len() {
                            assert(self.photos@[a]@[b] == pre.photos@[a]@[b]);
                        }
                    } else {
                        assert(self.photos@[a] == pre.photos@[a]);
                    }
                }
                assert forall|l: Seq<char>| #[trigger]
                    self.lookup(l) == if l == label@ && pre.has_label(l) {
                        Some(pre.lookup(l)->Some_0.push(img))
                    } else {
                        pre.lookup(l)
                    } by {
                    if pre.has_label(l) {
                        let k = pre.index_of(l);
                        pre.lemma_lookup_at(k);
                        self.lemma_lookup_at(k);
                        if l == label@ {
                            self.lemma_lookup_at(i as int);
                        }
                    }
                }
                Ok(())
            },
            Err(_) => {
                proof {
                    lemma_lex_irreflexive(label@);
                }
                Err(PhotoError::UndefinedLabel(String::from_str(label)))
            },
        }
    }

    /// The directory of `label`: the project directory joined with the
    /// label. Fails with `UndefinedLabel` when `label` is no label.
    pub fn label_dir_path(&self, label: &str) -> (r: Result<String, PhotoError>)
        requires
            self.wf(),
        ensures
            r is Ok <==> self.has_label(label@),
            r matches Ok(p) ==> p@ == self.project() + seq!['/'] + label@,
            r matches Err(e) ==> e matches PhotoError::UndefinedLabel(s) && s@ == label@,
    {
        match self.find_label(label) {
            Ok(i) => {
                proof {
                    reveal_strlit("/");
                    assert(self.labels@[i as int]@ == label@);
                }
                let mut p = self.project_name.clone();
                p.append("/");
                p.append(label);
                Ok(p)
            },
            Err(_) => {
                proof {
                    lemma_lex_irreflexive(label@);
                }
                Err(PhotoError::UndefinedLabel(String::from_str(label)))
            },
        }
    }

    /// Where the next photo of `label` is written when its directory
    /// already holds `file_count` files: `photo_<file_count + 1>.png` in the
    /// label's directory. Fails with `UndefinedLabel` when `label` is no label.
    pub fn photo_path(&self, label: &str, file_count: usize) -> (r: Result<String, PhotoError>)
        requires
            self.wf(),
            file_count < usize::MAX,
        ensures
            r is Ok <==> self.has_label(label@),
            r matches Ok(p) ==> p@ == self.project() + seq!['/'] + label@ + seq!['/'] + photo_file_name(
                (file_count + 1) as nat,
            ),
            r matches Err(e) ==> e matches PhotoError::UndefinedLabel(s) && s@ == label@,
    {
        let mut p = self.label_dir_path(label)?;
        let digits = decimal_text(file_count + 1);
        proof {
            reveal_strlit("/photo_");
            reveal_strlit(".png");
        }
        p.append("/photo_");
        p.append(digits.as_str());
        p.append(".png");
        assert(p@ =~= self.project() + seq!['/'] + label@ + seq!['/'] + photo_file_name(
            (file_count + 1) as nat,
        ));
        Ok(p)
    }

    /// Every stored photo with its label's index, in label order.
    pub open spec fn candidates(&self) -> Seq<(usize, Raster)> {
        flatten_upto(self.photo_lists(), self.photo_lists().len() as int)
    }

    /// Distances from `img` to every stored photo, with the photo's label
    /// index; `None` when some photo differs from `img` in shape.
    fn candidate_scores(&self, img: &Raster) -> (r: Option<(Vec<u128>, Vec<usize>)>)
        requires
            self.wf(),
            img.wf(),
        ensures
            r is Some <==> forall|j: int|
                0 <= j < self.candidates().len() ==> img.same_shape(&(#[trigger] self.candidates()[j]).1),
            r matches Some((d, l)) ==> d@ == candidate_distances(img.samples@, self.candidates())
                && l@ == candidate_labels(self.candidates()),
    {
        let ghost ps = self.photo_lists();
        let ghost c = self.candidates();
        let ghost q = img.samples@;
        let n_labels = self.photos.len();
        let mut dists: Vec<u128> = Vec::new();
        let mut labs: Vec<usize> = Vec::new();
        let mut i: usize = 0;
        while i < n_labels
            invariant
                i <= n_labels,
                n_labels == ps.len(),
                ps == self.photo_lists(),
                self.wf(),
                img.wf(),
                q == img.samples@,
                c == flatten_upto(ps, n_labels as int),
                dists@.len() == flatten_upto(ps, i as int).len(),
                labs@.len() == dists@.len(),
                forall|t: int|
                    0 <= t < dists@.len() ==> {
                        let x = #[trigger] flatten_upto(ps, i as int)[t];
                        &&& dists@[t] == sq_dist(q, x.1.samples@) as u128
                        &&& labs@[t] == x.0
                        &&& img.same_shape(&x.1)
                    },
            decreases n_labels - i,
        {
            let ghost fl = flatten_upto(ps, i as int);
            let ghost fl1 = flatten_upto(ps, i as int + 1);
            assert(ps[i as int] == self.photos@[i as int]@);
            assert(fl1 == fl + ps[i as int].map_values(|r: Raster| (i, r)));
            let m = self.photos[i].len();
            let mut j: usize = 0;
            while j < m
                invariant
                    i < n_labels,
                    n_labels == ps.len(),
                    ps == self.photo_lists(),
                    ps[i as int] == self.photos@[i as int]@,
                    self.wf(),
                    img.wf(),
                    q == img.samples@,
                    c == flatten_upto(ps, n_labels as int),
                    m == ps[i as int].len(),
                    j <= m,
                    fl == flatten_upto(ps, i as int),
                    fl1 == fl + ps[i as int].map_values(|r: Raster| (i, r)),
                    dists@.len() == fl.len() + j,
                    labs@.len() == dists@.len(),
                    forall|t: int|
                        0 <= t < dists@.len() ==> {
                            let x = #[trigger] fl1[t];
                            &&& dists@[t] == sq_dist(q, x.1.samples@) as u128
                            &&& labs@[t] == x.0
                            &&& img.same_shape(&x.1)
                        },
                decreases m - j,
            {
                let photo = &self.photos[i][j];
                assert(photo.wf());
                assert(fl1[fl.len() + j] == (i, *photo));
                match squared_distance(img, photo) {
                    None => {
                        proof {
                            lemma_flatten_prefix(ps, i as int + 1, n_labels as int, fl.len() + j);
                            assert(c == self.candidates());
                            assert(!img.same_shape(&self.candidates()[fl.len() + j].1));
                        }
                        return None;
                    },
                    Some(d) => {
                        dists.push(d);
                        labs.push(i);
                    },
                }
                j = j + 1;
            }
            i = i + 1;
        }
        assert(dists@ =~= candidate_distances(q, c));
        assert(labs@ =~= candidate_labels(c));
        Some((dists, labs))
    }

    /// The label chosen for `img` by a majority vote of the `K` stored
    /// photos nearest to it.
    ///
    /// Fails with `InsufficientSamples` when fewer than `K` photos are stored,
    /// and otherwise with `DimensionMismatch` when any stored photo differs
    /// from `img` in layout or dimensions. Among equally near photos the one
    /// met first (by label order, then insertion order) is nearer; among
    /// labels with equally many votes the lexicographically first wins.
    pub fn label_for(&self, img: &Raster) -> (r: Result<String, PhotoError>)
        requires
            self.wf(),
            img.wf(),
        ensures
            (r == Err::<String, PhotoError>(PhotoError::InsufficientSamples)) <==> self.candidates().len() < K,
            (r == Err::<String, PhotoError>(PhotoError::DimensionMismatch)) <==> (self.candidates().len()
                >= K && exists|j: int|
                0 <= j < self.candidates().len() && !img.same_shape(&(#[trigger] self.candidates()[j]).1)),
            r is Ok || r == Err::<String, PhotoError>(PhotoError::InsufficientSamples) || r == Err::<String, PhotoError>(
                PhotoError::DimensionMismatch),
            r matches Ok(s) ==> exists|w: int|
                is_winner(
                    candidate_distances(img.samples@, self.candidates()),
                    candidate_labels(self.candidates()),
                    self.label_seq().len() as int,
                    w,
                ) && s@ == #[trigger] self.label_seq()[w],
            r matches Ok(s) ==> self.has_label(s@) && (self.lookup(s@) matches Some(ps) && ps.len()
                >= 1),
    {
        let ghost ps = self.photo_lists();
        let n_labels = self.labels.len();
        let mut total: usize = 0;
        let mut i: usize = 0;
        while i < n_labels
            invariant
                i <= n_labels,
                n_labels == ps.len(),
                ps == self.photo_lists(),
                self.wf(),
                total <= K,
                total == K || total == flatten_upto(ps, i as int).len(),
                total == K ==> flatten_upto(ps, i as int).len() >= K,
            decreases n_labels - i,
        {
            assert(ps[i as int] == self.photos@[i as int]@);
            let len = self.photos[i].len();
            if len >= K - total {
                total = K;
            } else {
                total = total + len;
            }
            i = i + 1;
        }
        if total < K {
            return Err(PhotoError::InsufficientSamples);
        }
        let ghost c = self.candidates();
        match self.candidate_scores(img) {
            None => Err(PhotoError::DimensionMismatch),
            Some((dists, labs)) => {
                assert(n_labels > 0);
                let w = majority_label(&dists, &labs, n_labels);
                proof {
                    assert forall|j: int| 0 <= j < labs@.len() implies #[trigger] labs@[j]
                        < n_labels by {
                        lemma_flatten_label_bound(ps, ps.len() as int, j);
                    }
                    lemma_winner_has_votes(dists@, labs@, n_labels as int, w as int);
                    let j = choose|j: int| 0 <= j < labs@.len() && #[trigger] labs@[j] == w;
                    lemma_flatten_label_bound(ps, ps.len() as int, j);
                    self.lemma_lookup_at(w as int);
                }
                let s = self.labels[w].clone();
                assert(s@ == self.label_seq()[w as int]);
                assert(self.labels@[w as int]@ == s@);
                Ok(s)
            },
        }
    }

    /// A query identical to a stored photo lies at distance zero from it;
    /// and when that photo's label gets strictly more of the `K` nearest
    /// votes than any other label, it is the label that `label_for` returns.
    pub proof fn lemma_identical_majority(&self, img: Raster, j: int, w: int)
        requires
            self.wf(),
            0 <= j < self.candidates().len(),
            self.candidates()[j].1.samples@ == img.samples@,
            forall|m: int|
                0 <= m < self.label_seq().len() && m != self.candidates()[j].0 ==> #[trigger] votes(
                    candidate_distances(img.samples@, self.candidates()),
                    candidate_labels(self.candidates()),
                    m,
                ) < votes(
                    candidate_distances(img.samples@, self.candidates()),
                    candidate_labels(self.candidates()),
                    self.candidates()[j].0 as int,
                ),
            is_winner(
                candidate_distances(img.samples@, self.candidates()),
                candidate_labels(self.candidates()),
                self.label_seq().len() as int,
                w,
            ),
        ensures
            candidate_distances(img.samples@, self.candidates())[j] == 0,
            w == self.candidates()[j].0,
    {
        lemma_distance_self(img);
        let c = self.candidates();
        assert(candidate_labels(c)[j] == c[j].0);
        lemma_flatten_label_bound(self.photo_lists(), self.photo_lists().len() as int, j);
        lemma_strict_majority_wins(
            candidate_distances(img.samples@, c),
            candidate_labels(c),
            self.label_seq().len() as int,
            c[j].0 as int,
            w,
        );
    }

    proof fn lemma_lookup_at(&self, i: int)
        requires
            self.wf(),
            0 <= i < self.labels@.len(),
        ensures
            self.lookup(self.labels@[i]@) == Some(self.photos@[i]@),
    {
        let l = self.labels@[i]@;
        assert(self.labels@[i]@ == l);
        let k = self.index_of(l);
        if k < i {
            assert(lex_lt(self.labels@[k]@, self.labels@[i]@));
            lemma_lex_irreflexive(l);
        } else if i < k {
            assert(lex_lt(self.labels@[i]@, self.labels@[k]@));
            lemma_lex_irreflexive(l);
        }
    }

    /// `Ok(i)` when `label` stands at index `i`; otherwise `Err(p)`, the index
    /// at which it would be inserted to keep the labels sorted.
    fn find_label(&self, label: &str) -> (r: Result<usize, usize>)
        requires
            self.wf(),
        ensures
            r matches Ok(i) ==> i < self.labels@.len() && self.labels@[i as int]@ == label@,
            r matches Err(p) ==> p <= self.labels@.len() && (forall|k: int|
                0 <= k < p ==> lex_lt(#[trigger] self.labels@[k]@, label@)) && (forall|k: int|
                p <= k < self.labels@.len() ==> lex_lt(label@, #[trigger] self.labels@[k]@)),
    {
        let n = self.labels.len();
        let mut i: usize = 0;
        while i < n
            invariant
                self.wf(),
                n == self.labels@.len(),
                i <= n,
                forall|k: int| 0 <= k < i ==> lex_lt(#[trigger] self.labels@[k]@, label@),
            decreases n - i,
        {
            let cur = self.labels[i].as_str();
            if !label_less(cur, label) {
                if label_less(label, cur) {
                    assert forall|k: int| i <= k < n implies lex_lt(
                        label@,
                        #[trigger] self.labels@[k]@,
                    ) by {
                        if k > i {
                            assert(lex_lt(self.labels@[i as int]@, self.labels@[k]@));
                            lemma_lex_transitive(label@, self.labels@[i as int]@, self.labels@[k]@);
                        }
                    }
                    return Err(i);
                } else {
                    proof {
                        if cur@ != label@ {
                            lemma_lex_total(cur@, label@);
                        }
                    }
                    return Ok(i);
                }
            }
            i = i + 1;
        }
        Err(n)
    }

    /// Stores `photos` as the photo list of `label`, replacing any earlier
    /// list and inserting the label at its sorted place when it is new.
    fn set_photos(&mut self, label: String, photos: Vec<Raster>)
        requires
            old(self).wf(),
            forall|j: int| 0 <= j < photos@.len() ==> (#[trigger] photos@[j]).wf(),
        ensures
            final(self).wf(),
            final(self).project() == old(self).project(),
            forall|l: Seq<char>|
                #[trigger] final(self).lookup(l) == if l == label@ {
                    Some(photos@)
                } else {
                    old(self).lookup(l)
                },
    {
        let ghost pre = *self;
        let ghost lv = label@;
        let ghost pv = photos@;
        match self.find_label(label.as_str()) {
            Ok(i) => {
                self.photos.set(i, photos);
                assert forall|l: Seq<char>| #[trigger]
                    self.lookup(l) == if l == lv {
                        Some(pv)
                    } else {
                        pre.lookup(l)
                    } by {
                    if l == lv {
                        self.lemma_lookup_at(i as int);
                    } else if exists|k: int| 0 <= k < pre.labels@.len() && #[trigger] pre.labels@[k]@ == l {
                        let k = choose|k: int| 0 <= k < pre.labels@.len() && #[trigger] pre.labels@[k]@ == l;
                        pre.lemma_lookup_at(k);
                        self.lemma_lookup_at(k);
                    }
                }
            },
            Err(p) => {
                self.labels.insert(p, label);
                self.photos.insert(p, photos);
                let count = self.labels.len();
                assert(count == self.labels@.len());
                assert forall|i: int, j: int|
                    0 <= i < j < self.labels@.len() implies lex_lt(
                    #[trigger] self.labels@[i]@,
                    #[trigger] self.labels@[j]@,
                ) by {
                    if i < p && j > p {
                        lemma_lex_transitive(self.labels@[i]@, lv, self.labels@[j]@);
                    }
                    if i < p && j < p {
                        assert(self.labels@[i] == pre.labels@[i]);
                    }
                    if i > p {
                        assert(self.labels@[i] == pre.labels@[i - 1]);
                        assert(self.labels@[j] == pre.labels@[j - 1]);
                    }
                    if i < p && j > p {
                        assert(self.labels@[j] == pre.labels@[j - 1]);
                    }
                }
                assert forall|i: int, j: int|
                    0 <= i < self.photos@.len() && 0 <= j < self.photos@[i]@.len()
                    implies (#[trigger] self.photos@[i]@[j]).wf() by {
                    if i < p {
                        assert(self.photos@[i] == pre.photos@[i]);
                    } else if i > p {
                        assert(self.photos@[i] == pre.photos@[i - 1]);
                    }
                }
                assert forall|l: Seq<char>| #[trigger]
                    self.lookup(l) == if l == lv {
                        Some(pv)
                    } else {
                        pre.lookup(l)
                    } by {
                    if l == lv {
                        self.lemma_lookup_at(p as int);
                    } else if exists|k: int| 0 <= k < pre.labels@.len() && #[trigger] pre.labels@[k]@ == l {
                        let k = choose|k: int| 0 <= k < pre.labels@.len() && #[trigger] pre.labels@[k]@ == l;
                        pre.lemma_lookup_at(k);
                        if k < p {
                            self.lemma_lookup_at(k);
                        } else {
                            assert(self.labels@[k + 1] == pre.labels@[k]);
                            self.lemma_lookup_at(k + 1);
                        }
                    } else {
                        if exists|k: int| 0 <= k < self.labels@.len() && #[trigger] self.labels@[k]@ == l {
                            let k = choose|k: int| 0 <= k < self.labels@.len() && #[trigger] self.labels@[k]@ == l;
                            if k < p {
                                assert(self.labels@[k] == pre.labels@[k]);
                            } else if k > p {
                                assert(self.labels@[k] == pre.labels@[k - 1]);
                            }
                        }
                    }
                }
            },
        }
    }
}

} // verus!
