//! Names of crate archives and of the places where they are unpacked.

use circular_buffer::FixedCircularBuffer;
use vstd::prelude::*;
use vstd::string::StringExecFns;

verus! {

/// Why a crate could not be used.
#[derive(Clone, Debug, PartialEq, Eq, Hash)]
pub enum Error {
    /// No crate of that name is open
    CrateNotFound,
    /// The crate's archive does not exist
    CrateFileNotFound,
    /// The archive was unpacked, but not to the place expected
    ExtractionFailed,
    /// The crate's name holds no `-` between its name and its version
    CrateNameError(String),
}

/// Whether the text holds a `-`.
pub open spec fn has_dash(s: Seq<char>) -> bool {
    s.contains('-')
}

/// The position of the last `-` in the text.
pub open spec fn last_dash(s: Seq<char>) -> int {
    choose|i: int|
        0 <= i < s.len() && s[i] == '-' && forall|j: int| i < j < s.len() ==> s[j] != '-'
}

/// The text before the last `-`.
pub open spec fn before_last_dash(s: Seq<char>) -> Seq<char> {
    s.subrange(0, last_dash(s))
}

/// The text after the last `-`.
pub open spec fn after_last_dash(s: Seq<char>) -> Seq<char> {
    s.subrange(last_dash(s) + 1, s.len() as int)
}

/// `str::rsplit_once` with `-` as the delimiter: the text before the last
/// `-` and the text after it, or `None` where the text holds no `-`.
#[verifier::external_body]
fn rsplit_once_dash(s: &str) -> (r: Option<(&str, &str)>)
    ensures
        match r {
            Some((before, after)) => s@ == before@ + seq!['-'] + after@ && !after@.contains('-'),
            None => !s@.contains('-'),
        },
{
    s.rsplit_once('-')
}

/// A text that is split at a `-` after which no `-` follows is split at its
/// last `-`.
proof fn lemma_split_at_last_dash(s: Seq<char>, before: Seq<char>, after: Seq<char>)
    requires
        s == before + seq!['-'] + after,
        !after.contains('-'),
    ensures
        has_dash(s),
        before_last_dash(s) == before,
        after_last_dash(s) == after,
{
    let i = before.len() as int;
    assert(s[i] == '-');
    assert forall|j: int| i < j < s.len() implies s[j] != '-' by {
        assert(s[j] == after[j - i - 1]);
        assert(after.contains(after[j - i - 1]));
    }
    let k = last_dash(s);
    assert(0 <= k < s.len() && s[k] == '-' && forall|j: int| k < j < s.len() ==> s[j] != '-');
    assert(k == i);
    assert(s.subrange(0, i) =~= before);
    assert(s.subrange(i + 1, s.len() as int) =~= after);
}

/// The full name of one version of a crate: its name, a `-`, and its
/// version.
#[derive(Debug, PartialEq, Eq, PartialOrd, Ord, Hash)]
pub struct CrateEntry {
    full_name: String,
}

impl Clone for CrateEntry {
    fn clone(&self) -> (r: Self)
        ensures
            r@ == self@,
    {
        proof {
            use_type_invariant(self);
        }
        Self { full_name: self.full_name.clone() }
    }
}

impl CrateEntry {
    /// The full name holds a `-`.
    #[verifier::type_invariant]
    pub closed spec fn wf(&self) -> bool {
        has_dash(self.full_name@)
    }

    /// The full name, as text.
    pub closed spec fn view(&self) -> Seq<char> {
        self.full_name@
    }

    /// An entry for the crate with the given full name. Fails with
    /// `CrateNameError`, which holds the name, exactly when the name holds
    /// no `-`.
    pub fn new(full_name: String) -> (r: Result<Self, Error>)
        ensures
            r.is_ok() == has_dash(full_name@),
            r matches Ok(entry) ==> entry@ == full_name@,
            r matches Err(e) ==> e matches Error::CrateNameError(name) && name@ == full_name@,
    {
        match rsplit_once_dash(full_name.as_str()) {
            Some((before, after)) => {
                proof {
                    lemma_split_at_last_dash(full_name@, before@, after@);
                }
                Ok(Self { full_name })
            },
            None => Err(Error::CrateNameError(full_name.clone())),
        }
    }

    /// Whether two entries are those of the same version of the same crate.
    pub fn same(&self, other: &CrateEntry) -> (r: bool)
        ensures
            r == (self@ == other@),
    {
        self.full_name == other.full_name
    }

    /// The full name: name, `-`, version.
    pub fn full_name(&self) -> (s: &str)
        ensures
            s@ == self@,
    {
        self.full_name.as_str()
    }

    /// The crate's name: what stands before the last `-` of the full name.
    pub fn name(&self) -> (s: &str)
        ensures
            s@ == before_last_dash(self@),
    {
        proof {
            use_type_invariant(self);
        }
        match rsplit_once_dash(self.full_name.as_str()) {
            Some((before, after)) => {
                proof {
                    lemma_split_at_last_dash(self.full_name@, before@, after@);
                }
                before
            },
            None => self.full_name.as_str(),
        }
    }

    /// The crate's version: what stands after the last `-` of the full name.
    pub fn version(&self) -> (s: &str)
        ensures
            s@ == after_last_dash(self@),
    {
        proof {
            use_type_invariant(self);
        }
        match rsplit_once_dash(self.full_name.as_str()) {
            Some((before, after)) => {
                proof {
                    lemma_split_at_last_dash(self.full_name@, before@, after@);
                }
                after
            },
            None => self.full_name.as_str(),
        }
    }

    /// The name of the crate's archive: the full name and `.crate`.
    pub fn filename(&self) -> (s: String)
        ensures
            s@ == self@ + ".crate"@,
    {
        self.full_name.clone().concat(".crate")
    }
}

/// A crate that is unpacked: where its archive lies, where its sources lie,
/// and whether the sources are to stay when the crate is closed.
#[derive(Debug, Clone, PartialEq, Eq)]
pub struct CrateCache {
    src_crate_file: String,
    extracted_path: String,
    no_delete: bool,
}

impl CrateCache {
    /// Where the crate's archive lies.
    pub closed spec fn archive(&self) -> Seq<char> {
        self.src_crate_file@
    }

    /// Where the crate's sources lie.
    pub closed spec fn sources(&self) -> Seq<char> {
        self.extracted_path@
    }

    /// Whether the sources were there before the crate was opened, and so
    /// are to stay when it is closed.
    pub closed spec fn keeps_sources(&self) -> bool {
        self.no_delete
    }

    /// A crate whose sources lie unpacked at `extracted_path`.
    pub fn unpacked(src_crate_file: String, extracted_path: String, no_delete: bool) -> (c: Self)
        ensures
            c.archive() == src_crate_file@,
            c.sources() == extracted_path@,
            c.keeps_sources() == no_delete,
    {
        Self { src_crate_file, extracted_path, no_delete }
    }

    /// Where the crate's sources lie.
    pub fn path(&self) -> (p: &str)
        ensures
            p@ == self.sources(),
    {
        self.extracted_path.as_str()
    }

    /// Where the crate's archive lies.
    pub fn archive_path(&self) -> (p: &str)
        ensures
            p@ == self.archive(),
    {
        self.src_crate_file.as_str()
    }

    /// Whether the sources are to be removed when the crate is closed: they
    /// are, unless they were there before the crate was opened.
    pub fn removes_sources(&self) -> (r: bool)
        ensures
            r == !self.keeps_sources(),
    {
        !self.no_delete
    }
}

/// Where the archives of crates lie, and where they are unpacked.
#[derive(Debug, Clone, PartialEq, Eq)]
pub struct CrateFsConfig {
    pub crates_path: String,
    pub extract_path: String,
}

impl CrateFsConfig {
    /// A configuration with the two paths.
    pub fn with_paths(crates_path: String, extract_path: String) -> (c: Self)
        ensures
            c.crates_path == crates_path,
            c.extract_path == extract_path,
    {
        Self { crates_path, extract_path }
    }
}

#[verifier::external_type_specification]
#[verifier::external_body]
#[verifier::reject_recursive_types(T)]
pub struct ExFixedCircularBuffer<T, const N: usize>(FixedCircularBuffer<T, N>);

/// The crates that a buffer holds, the one that was put in first at the
/// front.
pub uninterp spec fn buffered(
    buffer: FixedCircularBuffer<(CrateEntry, CrateCache), 1024>,
) -> Seq<(CrateEntry, CrateCache)>;

/// `FixedCircularBuffer::boxed`: a buffer that holds nothing.
#[verifier::external_body]
fn new_buffer() -> (buffer: Box<FixedCircularBuffer<(CrateEntry, CrateCache), 1024>>)
    ensures
        buffered(*buffer) == Seq::<(CrateEntry, CrateCache)>::empty(),
{
    FixedCircularBuffer::boxed()
}

/// `CircularBuffer::len`: the number of crates that the buffer holds.
#[verifier::external_body]
fn buffer_len(buffer: &Box<FixedCircularBuffer<(CrateEntry, CrateCache), 1024>>) -> (n: usize)
    ensures
        n == buffered(**buffer).len(),
{
    buffer.len()
}

/// `CircularBuffer::get`: the crate at the given position from the front,
/// or `None` where the buffer holds no more than `index` crates.
#[verifier::external_body]
fn buffer_get(
    buffer: &Box<FixedCircularBuffer<(CrateEntry, CrateCache), 1024>>,
    index: usize,
) -> (r: Option<&(CrateEntry, CrateCache)>)
    ensures
        match r {
            Some(item) => index < buffered(**buffer).len() && *item == buffered(
                **buffer,
            )[index as int],
            None => index >= buffered(**buffer).len(),
        },
{
    buffer.get(index)
}

/// `CircularBuffer::back`: the crate that was put in last, or `None` where
/// the buffer holds nothing.
#[verifier::external_body]
fn buffer_back(buffer: &Box<FixedCircularBuffer<(CrateEntry, CrateCache), 1024>>) -> (r: Option<
    &(CrateEntry, CrateCache),
>)
    ensures
        match r {
            Some(item) => buffered(**buffer).len() > 0 && *item == buffered(**buffer).last(),
            None => buffered(**buffer).len() == 0,
        },
{
    buffer.back()
}

/// `CircularBuffer::remove`: takes the crate at the given position out of
/// the buffer and returns it; the others stay in their order. `None`, and
/// no change, where the buffer holds no more than `index` crates.
#[verifier::external_body]
fn buffer_remove(
    buffer: &mut Box<FixedCircularBuffer<(CrateEntry, CrateCache), 1024>>,
    index: usize,
) -> (r: Option<(CrateEntry, CrateCache)>)
    ensures
        match r {
            Some(item) => index < buffered(**old(buffer)).len() && item == buffered(
                **old(buffer),
            )[index as int] && buffered(**final(buffer)) == buffered(**old(buffer)).remove(
                index as int,
            ),
            None => index >= buffered(**old(buffer)).len() && buffered(**final(buffer))
                == buffered(**old(buffer)),
        },
{
    buffer.remove(index)
}

/// `CircularBuffer::push_back`: puts the crate in at the back. A buffer that
/// holds as many crates as it has room for gives up the crate at its front,
/// which is returned.
#[verifier::external_body]
fn buffer_push_back(
    buffer: &mut Box<FixedCircularBuffer<(CrateEntry, CrateCache), 1024>>,
    item: (CrateEntry, CrateCache),
) -> (r: Option<(CrateEntry, CrateCache)>)
    ensures
        match r {
            Some(front) => buffered(**old(buffer)).len() == 1024 && front == buffered(
                **old(buffer),
            )[0] && buffered(**final(buffer)) == buffered(**old(buffer)).subrange(1, 1024).push(
                item,
            ),
            None => buffered(**old(buffer)).len() < 1024 && buffered(**final(buffer)) == buffered(
                **old(buffer),
            ).push(item),
        },
{
    buffer.push_back(item)
}

/// Whether one of the crates is the one with the given full name.
pub open spec fn holds_crate(crates: Seq<(CrateEntry, CrateCache)>, full_name: Seq<char>) -> bool {
    exists|i: int| 0 <= i < crates.len() && (#[trigger] crates[i]).0@ == full_name
}

/// The position of the first of the crates with the given full name.
pub open spec fn position_of(crates: Seq<(CrateEntry, CrateCache)>, full_name: Seq<char>) -> int {
    choose|i: int|
        0 <= i < crates.len() && (#[trigger] crates[i]).0@ == full_name && forall|j: int|
            0 <= j < i ==> (#[trigger] crates[j]).0@ != full_name
}

/// What opening a crate comes to.
pub enum Opened<'a> {
    /// The crate is open already
    Cached(&'a CrateCache),
    /// The crate is not open: its archive is to be unpacked
    Missing(CrateEntry),
}

/// The crates that are open, in the order in which they were opened. There
/// is room for 1024 open crates; when one more is opened, the one that was
/// opened first is closed.
pub struct CrateFs {
    cache: Box<FixedCircularBuffer<(CrateEntry, CrateCache), 1024>>,
    config: CrateFsConfig,
}

impl CrateFs {
    /// The crates that are open, the one that was opened first at the
    /// front.
    pub closed spec fn crates(&self) -> Seq<(CrateEntry, CrateCache)> {
        buffered(*self.cache)
    }

    /// The configuration.
    pub closed spec fn settings(&self) -> CrateFsConfig {
        self.config
    }

    /// No crate is open.
    pub fn new(config: CrateFsConfig) -> (fs: Self)
        ensures
            fs.crates() == Seq::<(CrateEntry, CrateCache)>::empty(),
            fs.settings() == config,
    {
        Self { cache: new_buffer(), config }
    }

    /// The position of the first open crate with the entry's full name, if
    /// one is open.
    pub fn find_cache_index(&self, entry: &CrateEntry) -> (r: Option<usize>)
        ensures
            r.is_some() == holds_crate(self.crates(), entry@),
            r matches Some(i) ==> i < self.crates().len() && i == position_of(
                self.crates(),
                entry@,
            ),
    {
        let ghost crates = self.crates();
        let n = buffer_len(&self.cache);
        let mut i: usize = 0;
        while i < n
            invariant
                crates == self.crates(),
                n == crates.len(),
                i <= n,
                forall|j: int| 0 <= j < i ==> (#[trigger] crates[j]).0@ != entry@,
            decreases n - i,
        {
            match buffer_get(&self.cache, i) {
                Some(item) => {
                    if item.0.same(entry) {
                        proof {
                            let p = position_of(crates, entry@);
                            assert(crates[i as int].0@ == entry@);
                            assert(0 <= p < crates.len() && crates[p].0@ == entry@ && forall|
                                j: int,
                            |
                                0 <= j < p ==> (#[trigger] crates[j]).0@ != entry@);
                            assert(p == i);
                        }
                        return Some(i);
                    }
                },
                None => {},
            }
            i += 1;
        }
        None
    }

    /// Closes the crate with the given full name: the first open crate with
    /// that name leaves the open crates and is returned, so that its
    /// sources can be removed.
    ///
    /// Fails with `CrateNameError` exactly when the name holds no `-`, and
    /// else with `CrateNotFound` exactly when no crate of that name is
    /// open; the open crates then stay as they are.
    pub fn close(&mut self, fullname: &str) -> (r: Result<CrateCache, Error>)
        ensures
            final(self).settings() == old(self).settings(),
            match r {
                Ok(crate_cache) => {
                    &&& holds_crate(old(self).crates(), fullname@)
                    &&& crate_cache == old(self).crates()[position_of(
                        old(self).crates(),
                        fullname@,
                    )].1
                    &&& final(self).crates() == old(self).crates().remove(
                        position_of(old(self).crates(), fullname@),
                    )
                },
                Err(Error::CrateNameError(name)) => !has_dash(fullname@) && name@ == fullname@
                    && final(self).crates() == old(self).crates(),
                Err(e) => has_dash(fullname@) && !holds_crate(old(self).crates(), fullname@) && e
                    == Error::CrateNotFound && final(self).crates() == old(self).crates(),
            },
    {
        let entry = match CrateEntry::new(fullname.to_owned()) {
            Ok(entry) => entry,
            Err(e) => {
                return Err(e);
            },
        };
        let index = match self.find_cache_index(&entry) {
            Some(index) => index,
            None => {
                return Err(Error::CrateNotFound);
            },
        };
        match buffer_remove(&mut self.cache, index) {
            Some(item) => Ok(item.1),
            None => Err(Error::CrateNotFound),
        }
    }

    /// Looks the crate with the given full name up among the open crates:
    /// the first open crate of that name, or the entry of the crate whose
    /// archive is to be unpacked.
    ///
    /// Fails with `CrateNameError` exactly when the name holds no `-`.
    pub fn open(&self, fullname: &str) -> (r: Result<Opened<'_>, Error>)
        ensures
            match r {
                Ok(Opened::Cached(crate_cache)) => holds_crate(self.crates(), fullname@)
                    && *crate_cache == self.crates()[position_of(self.crates(), fullname@)].1,
                Ok(Opened::Missing(entry)) => has_dash(fullname@) && !holds_crate(
                    self.crates(),
                    fullname@,
                ) && entry@ == fullname@,
                Err(e) => {
                    &&& !has_dash(fullname@)
                    &&& e matches Error::CrateNameError(name) && name@ == fullname@
                },
            },
    {
        let entry = match CrateEntry::new(fullname.to_owned()) {
            Ok(entry) => entry,
            Err(e) => {
                return Err(e);
            },
        };
        match self.find_cache_index(&entry) {
            Some(index) => match buffer_get(&self.cache, index) {
                Some(item) => Ok(Opened::Cached(&item.1)),
                None => Err(Error::CrateNotFound),
            },
            None => Ok(Opened::Missing(entry)),
        }
    }

    /// Takes an unpacked crate among the open crates, as the newest. Where
    /// there is no room for it, the crate that was opened first leaves and
    /// is returned, so that its sources can be removed.
    pub fn insert(&mut self, entry: CrateEntry, crate_cache: CrateCache) -> (evicted: Option<
        CrateCache,
    >)
        ensures
            final(self).settings() == old(self).settings(),
            match evicted {
                Some(first) => old(self).crates().len() == 1024 && first == old(
                    self,
                ).crates()[0].1 && final(self).crates() == old(self).crates().subrange(
                    1,
                    1024,
                ).push((entry, crate_cache)),
                None => old(self).crates().len() < 1024 && final(self).crates() == old(
                    self,
                ).crates().push((entry, crate_cache)),
            },
    {
        match buffer_push_back(&mut self.cache, (entry, crate_cache)) {
            Some(front) => Some(front.1),
            None => None,
        }
    }

    /// The crate that was opened last, if any is open.
    pub fn newest(&self) -> (r: Option<&CrateCache>)
        ensures
            match r {
                Some(crate_cache) => self.crates().len() > 0 && *crate_cache
                    == self.crates().last().1,
                None => self.crates().len() == 0,
            },
    {
        match buffer_back(&self.cache) {
            Some(item) => Some(&item.1),
            None => None,
        }
    }

    /// Closes the crate that was opened first, if any is open, and returns
    /// it, so that its sources can be removed.
    pub fn close_oldest(&mut self) -> (r: Option<CrateCache>)
        ensures
            final(self).settings() == old(self).settings(),
            match r {
                Some(crate_cache) => old(self).crates().len() > 0 && crate_cache == old(
                    self,
                ).crates()[0].1 && final(self).crates() == old(self).crates().remove(0),
                None => old(self).crates().len() == 0 && final(self).crates() == old(
                    self,
                ).crates(),
            },
    {
        match buffer_remove(&mut self.cache, 0) {
            Some(item) => Some(item.1),
            None => None,
        }
    }

    /// The configuration.
    pub fn config(&self) -> (c: &CrateFsConfig)
        ensures
            *c == self.settings(),
    {
        &self.config
    }
}

} // verus!
