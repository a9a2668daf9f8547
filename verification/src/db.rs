//! The package record and the database that aggregates the records parsed
//! from one archive.

use crate::archive::{read_entries, tar_entry_list};
use crate::compress::{decompress, spec_decompress};
use crate::error::ProgramError;
use crate::parse::{desc_fields, desc_name, meta_view, parse_fields};
use crate::text::{bytes_to_string, is_desc_name, is_desc_path, split_lines, utf8_decoded};
use vstd::hash_map::StringHashMap;
use vstd::prelude::*;

verus! {

/// The mathematical model of a package record.
pub struct PackageModel {
    pub name: Seq<char>,
    pub metadata: Map<Seq<char>, Seq<Seq<char>>>,
}

impl PackageModel {
    /// A well-formed record holds a `name` field whose first value line is
    /// the record's own name.
    pub open spec fn wf(self) -> bool {
        &&& self.metadata.contains_key("name"@)
        &&& self.metadata["name"@].len() > 0
        &&& self.metadata["name"@][0] == self.name
    }
}

/// One package record, parsed from a `desc` entry: a name and a mapping from
/// lower-cased field key to that field's ordered value lines.
pub struct Package {
    name: String,
    keys: Vec<String>,
    metadata: StringHashMap<Vec<String>>,
}

impl View for Package {
    type V = PackageModel;

    closed spec fn view(&self) -> PackageModel {
        PackageModel { name: self.name@, metadata: meta_view(self.metadata@) }
    }
}

impl Package {
    /// The record is well-formed, and its key list names exactly the fields
    /// of its metadata, each once.
    pub closed spec fn inv(&self) -> bool {
        &&& self@.wf()
        &&& self.keys.deep_view().no_duplicates()
        &&& forall|j: int|
            0 <= j < self.keys.deep_view().len() ==> self@.metadata.contains_key(
                #[trigger] self.keys.deep_view()[j],
            )
        &&& forall|k: Seq<char>| self@.metadata.contains_key(k) ==> self.keys.deep_view().contains(k)
    }

    /// The package's name.
    pub fn name(&self) -> (r: &str)
        ensures
            r@ == self@.name,
    {
        self.name.as_str()
    }

    /// The field keys present in the metadata, in order of first appearance,
    /// each exactly once.
    pub fn keys(&self) -> (r: &Vec<String>)
        requires
            self.inv(),
        ensures
            r.deep_view().no_duplicates(),
            forall|j: int|
                0 <= j < r.deep_view().len() ==> self@.metadata.contains_key(
                    #[trigger] r.deep_view()[j],
                ),
            forall|k: Seq<char>| self@.metadata.contains_key(k) ==> r.deep_view().contains(k),
    {
        &self.keys
    }

    /// The full metadata mapping.
    pub fn metadata(&self) -> (r: &StringHashMap<Vec<String>>)
        ensures
            meta_view(r@) == self@.metadata,
    {
        &self.metadata
    }
}

/// The package record a `desc` entry's bytes parse to: the entry must be
/// UTF-8 text whose descriptor resolves to a name; `None` otherwise.
pub open spec fn spec_parse_package(bytes: Seq<u8>) -> Option<PackageModel> {
    match utf8_decoded(bytes) {
        Some(text) => match desc_name(text) {
            Some(n) => Some(PackageModel { name: n, metadata: desc_fields(text) }),
            None => None,
        },
        None => None,
    }
}

/// The contents of the archive's descriptor entries, in storage order: the
/// raw bytes of each entry whose path names a `desc` file.
pub open spec fn desc_texts(entries: Seq<(Seq<char>, Seq<u8>)>) -> Seq<Seq<u8>>
    decreases entries.len(),
{
    if entries.len() == 0 {
        Seq::empty()
    } else {
        let rest = desc_texts(entries.drop_last());
        if is_desc_path(entries.last().0) {
            rest.push(entries.last().1)
        } else {
            rest
        }
    }
}

/// Whether every descriptor entry parses to a package record.
pub open spec fn all_parse(texts: Seq<Seq<u8>>) -> bool {
    forall|j: int| 0 <= j < texts.len() ==> spec_parse_package(#[trigger] texts[j]) is Some
}

/// The package map the descriptor entries build up, keyed by package name, a
/// later entry overwriting an earlier one of the same name.
pub open spec fn spec_db_map(texts: Seq<Seq<u8>>) -> Map<Seq<char>, PackageModel>
    decreases texts.len(),
{
    if texts.len() == 0 {
        Map::empty()
    } else {
        let m = spec_db_map(texts.drop_last());
        match spec_parse_package(texts.last()) {
            Some(p) => m.insert(p.name, p),
            None => m,
        }
    }
}

/// The mathematical contents of an executable package map.
pub open spec fn pkg_view(m: Map<Seq<char>, Package>) -> Map<Seq<char>, PackageModel> {
    m.map_values(|p: Package| p@)
}

proof fn lemma_pkg_view_dom(m: Map<Seq<char>, Package>, k: Seq<char>)
    ensures
        pkg_view(m).contains_key(k) == m.contains_key(k),
        m.contains_key(k) ==> pkg_view(m)[k] == m[k]@,
{
}

proof fn lemma_pkg_view_insert(m: Map<Seq<char>, Package>, k: Seq<char>, p: Package)
    ensures
        pkg_view(m.insert(k, p)) == pkg_view(m).insert(k, p@),
{
    assert(pkg_view(m.insert(k, p)) =~= pkg_view(m).insert(k, p@));
}

/// Splitting an entry sequence splits its descriptor contents.
proof fn lemma_desc_texts_append(a: Seq<(Seq<char>, Seq<u8>)>, b: Seq<(Seq<char>, Seq<u8>)>)
    ensures
        desc_texts(a + b) == desc_texts(a) + desc_texts(b),
    decreases b.len(),
{
    if b.len() == 0 {
        assert(a + b =~= a);
        assert(desc_texts(a) + Seq::<Seq<u8>>::empty() =~= desc_texts(a));
    } else {
        assert((a + b).drop_last() =~= a + b.drop_last());
        assert((a + b).last() == b.last());
        lemma_desc_texts_append(a, b.drop_last());
        if is_desc_path(b.last().0) {
            assert((desc_texts(a) + desc_texts(b.drop_last())).push(b.last().1) =~= desc_texts(a)
                + desc_texts(b.drop_last()).push(b.last().1));
        }
    }
}

/// A descriptor entry that does not parse poisons the whole archive's
/// descriptor contents.
proof fn lemma_bad_text(es: Seq<(Seq<char>, Seq<u8>)>, i: int)
    requires
        0 <= i < es.len(),
        is_desc_path(es[i].0),
        spec_parse_package(es[i].1) is None,
    ensures
        !all_parse(desc_texts(es)),
{
    assert(es =~= es.take(i + 1) + es.skip(i + 1));
    lemma_desc_texts_append(es.take(i + 1), es.skip(i + 1));
    assert(es.take(i + 1).drop_last() =~= es.take(i));
    assert(es.take(i + 1).last() == es[i]);
    let pre = desc_texts(es.take(i));
    assert(desc_texts(es.take(i + 1)) == pre.push(es[i].1));
    let w = pre.len() as int;
    assert(desc_texts(es)[w] == es[i].1);
}

proof fn lemma_push_no_duplicates<A>(s: Seq<A>, x: A)
    requires
        s.no_duplicates(),
        !s.contains(x),
    ensures
        s.push(x).no_duplicates(),
{
    let p = s.push(x);
    assert forall|i: int, j: int| 0 <= i < j < p.len() implies p[i] != p[j] by {
        if j == p.len() - 1 {
            assert(p[i] == s[i]);
            if s[i] == x {
                assert(s.contains(x));
            }
        }
    }
}

/// The mathematical model of a database.
pub struct DatabaseModel {
    pub file: Seq<char>,
    pub signed: bool,
    pub packages: Map<Seq<char>, PackageModel>,
}

/// One opened synchronization database: the source path it was loaded from,
/// the signature-verification flag (always false: no verification is
/// performed), and the parsed packages keyed by name.
pub struct Database {
    file: String,
    signed: bool,
    names: Vec<String>,
    packages: StringHashMap<Package>,
}

impl View for Database {
    type V = DatabaseModel;

    closed spec fn view(&self) -> DatabaseModel {
        DatabaseModel {
            file: self.file@,
            signed: self.signed,
            packages: pkg_view(self.packages@),
        }
    }
}

impl Database {
    /// Every stored record is well-formed and keyed by its own name, and the
    /// name list names exactly the stored packages, each once.
    pub closed spec fn inv(&self) -> bool {
        &&& forall|k: Seq<char>|
            self.packages@.contains_key(k) ==> (#[trigger] self.packages@[k]).inv()
                && self.packages@[k]@.name == k
        &&& self.names.deep_view().no_duplicates()
        &&& forall|j: int|
            0 <= j < self.names.deep_view().len() ==> self.packages@.contains_key(
                #[trigger] self.names.deep_view()[j],
            )
        &&& forall|k: Seq<char>| self.packages@.contains_key(k) ==> self.names.deep_view().contains(k)
    }

    /// Parses the text of one `desc` entry into a package record.
    ///
    /// The record's name is the first value line of its `name` field; a
    /// missing `name` field, or one with no value lines, is a `ParseError`,
    /// never a defaulted or synthesized name.
    pub fn parse_entry_desc(data: String) -> (r: Result<Package, ProgramError>)
        ensures
            match r {
                Ok(p) => {
                    &&& p.inv()
                    &&& p@.wf()
                    &&& desc_name(data@) == Some(p@.name)
                    &&& p@.metadata == desc_fields(data@)
                },
                Err(e) => e == ProgramError::ParseError && desc_name(data@) is None,
            },
    {
        let lines = split_lines(data.as_str());
        let (metadata, keys) = parse_fields(&lines);
        proof {
            assert(meta_view(metadata@) == desc_fields(data@));
            assert forall|k: Seq<char>|
                meta_view(metadata@).contains_key(k) == metadata@.contains_key(k) by {}
        }
        match metadata.get("name") {
            Some(vs) => {
                if vs.len() > 0 {
                    let name = vs[0].clone();
                    proof {
                        assert(meta_view(metadata@)["name"@] == metadata@["name"@].deep_view());
                        assert(vs.deep_view()[0] == vs@[0]@);
                    }
                    Ok(Package { name, keys, metadata })
                } else {
                    proof {
                        assert(meta_view(metadata@)["name"@] == metadata@["name"@].deep_view());
                    }
                    Err(ProgramError::ParseError)
                }
            },
            None => Err(ProgramError::ParseError),
        }
    }

    /// Loads a database from the raw bytes of one archive file.
    ///
    /// The bytes are decompressed, trying zstandard and falling back to
    /// gzip; the decompressed payload is read as a tar archive; and every
    /// entry whose path names a `desc` file is parsed and inserted keyed by
    /// its package name, a later entry overwriting an earlier one of the
    /// same name. The database is built atomically: any failure discards
    /// everything and reports the stage that failed.
    pub fn from_bytes(file: String, raw: &[u8]) -> (r: Result<Database, ProgramError>)
        ensures
            match r {
                Ok(db) => {
                    &&& db.inv()
                    &&& db@.file == file@
                    &&& db@.signed == false
                    &&& spec_decompress(raw@) matches Some(data) && tar_entry_list(data) matches Some(
                        es,
                    ) && all_parse(desc_texts(es)) && db@.packages == spec_db_map(desc_texts(es))
                },
                Err(e) => match e {
                    ProgramError::DecodeError => spec_decompress(raw@) is None,
                    ProgramError::ArchiveError => spec_decompress(raw@) matches Some(data)
                        && tar_entry_list(data) is None,
                    ProgramError::ParseError => spec_decompress(raw@) matches Some(data)
                        && tar_entry_list(data) matches Some(es) && !all_parse(desc_texts(es)),
                    _ => false,
                },
            },
    {
        let data = match decompress(raw) {
            Ok(d) => d,
            Err(e) => {
                return Err(e);
            },
        };
        let entries = match read_entries(data.as_slice()) {
            Some(es) => es,
            None => {
                return Err(ProgramError::ArchiveError);
            },
        };
        let ghost es = entries.deep_view();
        let mut packages: StringHashMap<Package> = StringHashMap::new();
        let mut names: Vec<String> = Vec::new();
        let mut i: usize = 0;
        proof {
            assert(es.take(0) =~= Seq::<(Seq<char>, Seq<u8>)>::empty());
            assert(desc_texts(es.take(0)) =~= Seq::<Seq<u8>>::empty());
            assert(names.deep_view() =~= Seq::<Seq<char>>::empty());
            assert(pkg_view(packages@) =~= Map::<Seq<char>, PackageModel>::empty());
        }
        while i < entries.len()
            invariant
                i <= entries.len(),
                es == entries.deep_view(),
                spec_decompress(raw@) == Some(data@),
                tar_entry_list(data@) == Some(es),
                all_parse(desc_texts(es.take(i as int))),
                pkg_view(packages@) == spec_db_map(desc_texts(es.take(i as int))),
                forall|k: Seq<char>|
                    packages@.contains_key(k) ==> (#[trigger] packages@[k]).inv()
                        && packages@[k]@.name == k,
                names.deep_view().no_duplicates(),
                forall|j: int|
                    0 <= j < names.deep_view().len() ==> packages@.contains_key(
                        #[trigger] names.deep_view()[j],
                    ),
                forall|k: Seq<char>| packages@.contains_key(k) ==> names.deep_view().contains(k),
            decreases entries.len() - i,
        {
            let ghost texts_pre = desc_texts(es.take(i as int));
            proof {
                assert(es.take(i as int + 1).drop_last() =~= es.take(i as int));
                assert(es.take(i as int + 1).last() == es[i as int]);
                assert(es[i as int].0 == entries@[i as int].0@);
                assert(es[i as int].1 =~= entries@[i as int].1@);
            }
            let entry = &entries[i];
            let ghost bytes = es[i as int].1;
            if is_desc_name(entry.0.as_str()) {
                proof {
                    assert(desc_texts(es.take(i as int + 1)) == texts_pre.push(bytes));
                }
                let text = match bytes_to_string(&entry.1) {
                    Some(t) => t,
                    None => {
                        proof {
                            assert(utf8_decoded(bytes) is None);
                            assert(spec_parse_package(bytes) is None);
                            lemma_bad_text(es, i as int);
                        }
                        return Err(ProgramError::ParseError);
                    },
                };
                let ghost tv = text@;
                proof {
                    assert(utf8_decoded(bytes) == Some(tv));
                }
                let pkg = match Self::parse_entry_desc(text) {
                    Ok(p) => p,
                    Err(_) => {
                        proof {
                            assert(desc_name(tv) is None);
                            assert(spec_parse_package(bytes) is None);
                            lemma_bad_text(es, i as int);
                        }
                        return Err(ProgramError::ParseError);
                    },
                };
                let ghost pm = pkg@;
                proof {
                    assert(spec_parse_package(bytes) == Some(pm));
                }
                let key = pkg.name_owned();
                let key_copy = key.clone();
                let ghost names_pre = names.deep_view();
                let ghost pkgs_pre = packages@;
                let fresh = !packages.contains_key(key.as_str());
                proof {
                    lemma_pkg_view_insert(packages@, key@, pkg);
                }
                packages.insert(key, pkg);
                proof {
                    let texts_cur = desc_texts(es.take(i as int + 1));
                    assert(texts_cur.drop_last() =~= texts_pre);
                    assert(texts_cur.last() == bytes);
                    assert(spec_db_map(texts_cur) == spec_db_map(texts_pre).insert(pm.name, pm));
                    assert(pkg_view(packages@) == spec_db_map(texts_cur));
                    assert(all_parse(texts_cur)) by {
                        assert forall|j: int|
                            0 <= j < texts_cur.len() implies spec_parse_package(
                            #[trigger] texts_cur[j],
                        ) is Some by {
                            if j < texts_pre.len() {
                                assert(texts_cur[j] == texts_pre[j]);
                            } else {
                                assert(texts_cur[j] == bytes);
                            }
                        }
                    };
                }
                if fresh {
                    proof {
                        assert(!names_pre.contains(key_copy@)) by {
                            if names_pre.contains(key_copy@) {
                                let w = choose|w: int|
                                    0 <= w < names_pre.len() && names_pre[w] == key_copy@;
                                assert(pkgs_pre.contains_key(names_pre[w]));
                            }
                        };
                    }
                    names.push(key_copy);
                    proof {
                        assert(names.deep_view() =~= names_pre.push(pm.name));
                        lemma_push_no_duplicates(names_pre, pm.name);
                    }
                }
                proof {
                    assert forall|j: int|
                        0 <= j < names.deep_view().len() implies packages@.contains_key(
                        #[trigger] names.deep_view()[j],
                    ) by {
                        if j < names_pre.len() {
                            assert(names.deep_view()[j] == names_pre[j]);
                            assert(pkgs_pre.contains_key(names_pre[j]));
                        } else {
                            assert(names.deep_view()[j] == pm.name);
                        }
                    }
                    assert forall|q: Seq<char>|
                        packages@.contains_key(q) implies names.deep_view().contains(q) by {
                        if q == pm.name {
                            if fresh {
                                assert(names.deep_view()[names.deep_view().len() - 1] == q);
                            } else {
                                assert(pkgs_pre.contains_key(q));
                                assert(names_pre.contains(q));
                                let w = choose|w: int|
                                    0 <= w < names_pre.len() && names_pre[w] == q;
                                assert(names.deep_view()[w] == q);
                            }
                        } else {
                            assert(pkgs_pre.contains_key(q));
                            assert(names_pre.contains(q));
                            let w = choose|w: int| 0 <= w < names_pre.len() && names_pre[w] == q;
                            assert(names.deep_view()[w] == q);
                        }
                    }
                }
            } else {
                proof {
                    assert(desc_texts(es.take(i as int + 1)) == texts_pre);
                }
            }
            i = i + 1;
        }
        proof {
            assert(es.take(entries.len() as int) =~= es);
        }
        Ok(Database { file, signed: false, names, packages })
    }

    /// The source path the database was loaded from.
    pub fn file(&self) -> (r: &String)
        ensures
            r@ == self@.file,
    {
        &self.file
    }

    /// The full package map, keyed by package name.
    pub fn packages(&self) -> (r: &StringHashMap<Package>)
        ensures
            pkg_view(r@) == self@.packages,
    {
        &self.packages
    }

    /// The names of the stored packages, each exactly once.
    pub fn names(&self) -> (r: &Vec<String>)
        requires
            self.inv(),
        ensures
            r.deep_view().no_duplicates(),
            forall|j: int|
                0 <= j < r.deep_view().len() ==> self@.packages.contains_key(
                    #[trigger] r.deep_view()[j],
                ),
            forall|k: Seq<char>| self@.packages.contains_key(k) ==> r.deep_view().contains(k),
    {
        proof {
            assert forall|k: Seq<char>|
                pkg_view(self.packages@).contains_key(k) == self.packages@.contains_key(k) by {}
        }
        &self.names
    }

    /// Looks up a package by exact name; a name that is not present is
    /// `None`, never an error.
    pub fn lookup(&self, pkg: &str) -> (r: Option<&Package>)
        ensures
            match r {
                Some(p) => {
                    &&& self@.packages.contains_key(pkg@)
                    &&& p@ == self@.packages[pkg@]
                    &&& self.inv() ==> p.inv()
                },
                None => !self@.packages.contains_key(pkg@),
            },
    {
        let r = self.packages.get(pkg);
        proof {
            lemma_pkg_view_dom(self.packages@, pkg@);
        }
        r
    }
}

impl Package {
    /// The package's name as an owned string.
    pub fn name_owned(&self) -> (r: String)
        ensures
            r@ == self@.name,
    {
        self.name.clone()
    }
}

} // verus!
