use std::io::Cursor;
use std::io::Read;
use vstd::prelude::*;
use zip::result::ZipError;
use zip::ZipArchive;

verus! {

#[verifier::external_type_specification]
#[verifier::external_body]
#[verifier::reject_recursive_types(T)]
pub struct ExCursor<T>(Cursor<T>);

#[verifier::external_type_specification]
#[verifier::external_body]
#[verifier::reject_recursive_types(R)]
pub struct ExZipArchive<R>(ZipArchive<R>);

#[verifier::external_type_specification]
#[verifier::external_body]
pub struct ExZipError(ZipError);

/// An archive read from bytes held in memory.
pub type MemArchive = ZipArchive<Cursor<Vec<u8>>>;

/// The name of each entry of an archive, in the archive's order, or `None` where the
/// entry or its name cannot be read.
pub uninterp spec fn zip_names(a: MemArchive) -> Seq<Option<Seq<char>>>;

/// The text of each entry of an archive, in the archive's order, or `None` where the
/// entry cannot be read or decompressed, or is not UTF-8.
pub uninterp spec fn zip_texts(a: MemArchive) -> Seq<Option<Seq<char>>>;

/// Whether `ZipArchive::new` accepts these bytes as an archive.
pub uninterp spec fn zip_opens(bytes: Seq<u8>) -> bool;

/// Relies on `zip::ZipArchive::new` over a `Cursor`: reads the archive's central directory;
/// whether that succeeds depends on the bytes alone.
#[verifier::external_body]
fn open_archive(bytes: Vec<u8>) -> (r: Result<MemArchive, ZipError>)
    ensures
        r is Ok <==> zip_opens(bytes@),
{
    ZipArchive::new(Cursor::new(bytes))
}

/// Relies on `zip::ZipArchive::len`: the number of entries.
#[verifier::external_body]
fn entry_count(a: &MemArchive) -> (r: usize)
    ensures
        r == zip_names(*a).len(),
{
    a.len()
}

/// Relies on `zip::ZipArchive::by_index` and `zip::read::ZipFile::name`: the name of entry
/// `i`. Reading an entry moves the reader only; the entries stay as they were.
#[verifier::external_body]
fn entry_name(a: &mut MemArchive, i: usize) -> (r: Result<String, ZipError>)
    requires
        i < zip_names(*old(a)).len(),
    ensures
        zip_names(*final(a)) == zip_names(*old(a)),
        zip_texts(*final(a)) == zip_texts(*old(a)),
        match r {
            Ok(n) => zip_names(*old(a))[i as int] == Some(n@),
            Err(_) => zip_names(*old(a))[i as int] is None,
        },
{
    let file = a.by_index(i)?;
    let name = file.name()?;
    Ok(name.into_owned())
}

/// Relies on `zip::ZipArchive::by_index` and `Read::read_to_string` on the entry: the
/// decompressed text of entry `i`.
#[verifier::external_body]
fn entry_text(a: &mut MemArchive, i: usize) -> (r: Result<String, ZipError>)
    requires
        i < zip_names(*old(a)).len(),
    ensures
        zip_names(*final(a)) == zip_names(*old(a)),
        zip_texts(*final(a)) == zip_texts(*old(a)),
        match r {
            Ok(t) => zip_texts(*old(a))[i as int] == Some(t@),
            Err(_) => zip_texts(*old(a))[i as int] is None,
        },
{
    let mut file = a.by_index(i)?;
    let mut text = String::new();
    file.read_to_string(&mut text)?;
    Ok(text)
}

/// A file taken out of an archive: its name inside the archive and its text.
#[derive(Debug, Clone)]
pub struct DecompressedFile {
    pub filename: String,
    pub content: String,
}

/// Whether `s` ends with `suffix`.
pub open spec fn ends_with(s: Seq<char>, suffix: Seq<char>) -> bool {
    suffix.len() <= s.len() && s.subrange(s.len() - suffix.len(), s.len() as int) == suffix
}

/// Relies on `str::ends_with` with a string pattern: whether `suffix` is a suffix of `s`.
#[verifier::external_body]
fn has_suffix(s: &str, suffix: &str) -> (r: bool)
    ensures
        r == ends_with(s@, suffix@),
{
    s.ends_with(suffix)
}

/// Whether a file name marks a document: it ends in `.xml`, `.cat` or `.ros`.
pub open spec fn is_document_name(name: Seq<char>) -> bool {
    ends_with(name, ".xml"@) || ends_with(name, ".cat"@) || ends_with(name, ".ros"@)
}

/// The files of `fs` whose names mark documents, in order.
pub open spec fn document_files(fs: Seq<DecompressedFile>) -> Seq<DecompressedFile>
    decreases fs.len(),
{
    if fs.len() == 0 {
        Seq::empty()
    } else if is_document_name(fs.last().filename@) {
        document_files(fs.drop_last()).push(fs.last())
    } else {
        document_files(fs.drop_last())
    }
}

/// The files of `decompressed_files` whose names mark documents, in order.
pub fn find_xml_files(decompressed_files: &[DecompressedFile]) -> (r: Vec<&DecompressedFile>)
    ensures
        r@.map_values(|f: &DecompressedFile| *f) == document_files(decompressed_files@),
{
    let ghost fs = decompressed_files@;
    let mut found: Vec<&DecompressedFile> = Vec::new();
    let mut i: usize = 0;
    proof {
        assert(found@.map_values(|f: &DecompressedFile| *f) =~= document_files(fs.subrange(0, 0)));
    }
    while i < decompressed_files.len()
        invariant
            i <= fs.len(),
            fs == decompressed_files@,
            found@.map_values(|f: &DecompressedFile| *f) == document_files(fs.subrange(0, i as int)),
        decreases fs.len() - i,
    {
        let ghost after = fs.subrange(0, i + 1);
        assert(after.drop_last() =~= fs.subrange(0, i as int));
        let file = &decompressed_files[i];
        let name = file.filename.as_str();
        if has_suffix(name, ".xml") || has_suffix(name, ".cat") || has_suffix(name, ".ros") {
            let ghost old_found = found@;
            found.push(file);
            assert(found@.map_values(|f: &DecompressedFile| *f) =~= old_found.map_values(
                |f: &DecompressedFile| *f,
            ).push(*file));
        }
        i = i + 1;
    }
    assert(fs.subrange(0, fs.len() as int) =~= fs);
    found
}

/// Why the files of an archive could not be taken out.
#[derive(Debug)]
pub enum ArchiveError {
    /// The bytes are not a readable archive.
    Unreadable,
    /// The entry at this index, or its name, cannot be read.
    EntryUnreadable(usize),
    /// The entry of this name cannot be decompressed as text.
    ContentUnreadable(String),
}

/// What reading the first entries of an archive gives: the files so far, or the first
/// failure.
pub enum Listing {
    Files(Seq<(Seq<char>, Seq<char>)>),
    BadEntry(int),
    BadContent(Seq<char>),
}

/// The files among the first `n` entries, directories (names ending in `/`) left out, in
/// the archive's order; the first entry whose name or text cannot be read stops it.
pub open spec fn listing(names: Seq<Option<Seq<char>>>, texts: Seq<Option<Seq<char>>>, n: int) -> Listing
    decreases n,
{
    if n <= 0 {
        Listing::Files(Seq::empty())
    } else {
        match listing(names, texts, n - 1) {
            Listing::Files(fs) => match names[n - 1] {
                None => Listing::BadEntry(n - 1),
                Some(name) => if ends_with(name, "/"@) {
                    Listing::Files(fs)
                } else {
                    match texts[n - 1] {
                        None => Listing::BadContent(name),
                        Some(t) => Listing::Files(fs.push((name, t))),
                    }
                },
            },
            other => other,
        }
    }
}

/// The listing of a whole archive.
pub open spec fn archive_listing(a: MemArchive) -> Listing {
    listing(zip_names(a), zip_texts(a), zip_names(a).len() as int)
}

pub open spec fn files_view(fs: Seq<DecompressedFile>) -> Seq<(Seq<char>, Seq<char>)> {
    fs.map_values(|f: DecompressedFile| (f.filename@, f.content@))
}

/// The value of what `collect_files` returns.
pub open spec fn listing_view(r: Result<Vec<DecompressedFile>, ArchiveError>) -> Listing {
    match r {
        Ok(fs) => Listing::Files(files_view(fs@)),
        Err(ArchiveError::EntryUnreadable(i)) => Listing::BadEntry(i as int),
        Err(ArchiveError::ContentUnreadable(n)) => Listing::BadContent(n@),
        Err(ArchiveError::Unreadable) => Listing::BadEntry(-1),
    }
}

/// Takes the files out of an open archive, in its order, leaving directories out.
pub fn collect_files(archive: &mut MemArchive) -> (r: Result<Vec<DecompressedFile>, ArchiveError>)
    ensures
        listing_view(r) == archive_listing(*old(archive)),
        !(r matches Err(ArchiveError::Unreadable)),
{
    let ghost names = zip_names(*archive);
    let ghost texts = zip_texts(*archive);
    let count = entry_count(archive);
    let mut files: Vec<DecompressedFile> = Vec::new();
    let mut i: usize = 0;
    proof {
        assert(files_view(files@) =~= Seq::<(Seq<char>, Seq<char>)>::empty());
    }
    while i < count
        invariant
            i <= count,
            count == names.len(),
            names == zip_names(*old(archive)),
            texts == zip_texts(*old(archive)),
            names == zip_names(*archive),
            texts == zip_texts(*archive),
            listing(names, texts, i as int) == Listing::Files(files_view(files@)),
        decreases count - i,
    {
        let name = match entry_name(archive, i) {
            Ok(n) => n,
            Err(_) => {
                proof {
                    lemma_listing_stops(names, texts, i + 1, count as int);
                }
                return Err(ArchiveError::EntryUnreadable(i));
            },
        };
        if !has_suffix(name.as_str(), "/") {
            let content = match entry_text(archive, i) {
                Ok(t) => t,
                Err(_) => {
                    proof {
                        lemma_listing_stops(names, texts, i + 1, count as int);
                    }
                    return Err(ArchiveError::ContentUnreadable(name));
                },
            };
            let ghost before = files@;
            let ghost pair = (name@, content@);
            files.push(DecompressedFile { filename: name, content });
            assert(files_view(files@) =~= files_view(before).push(pair));
        }
        i = i + 1;
    }
    Ok(files)
}

/// Takes the files out of the archive held in `bytes`, leaving directories out: fails
/// with `Unreadable` exactly when the bytes do not open as an archive, and otherwise gives
/// the listing of the opened archive.
pub fn decompress_archive(bytes: Vec<u8>) -> (r: Result<Vec<DecompressedFile>, ArchiveError>)
    ensures
        (r matches Err(ArchiveError::Unreadable)) <==> !zip_opens(bytes@),
        zip_opens(bytes@) ==> exists|a: MemArchive| listing_view(r) == archive_listing(a),
        r is Ok ==> forall|k: int|
            0 <= k < r->Ok_0@.len() ==> !ends_with(#[trigger] r->Ok_0@[k].filename@, "/"@),
{
    let mut archive = match open_archive(bytes) {
        Ok(a) => a,
        Err(_) => {
            return Err(ArchiveError::Unreadable);
        },
    };
    let ghost opened = archive;
    let r = collect_files(&mut archive);
    proof {
        if r is Ok {
            let fs = r->Ok_0@;
            lemma_listing_no_directories(
                zip_names(opened),
                zip_texts(opened),
                zip_names(opened).len() as int,
            );
            assert forall|k: int| 0 <= k < fs.len() implies !ends_with(
                #[trigger] fs[k].filename@,
                "/"@,
            ) by {
                let listed = files_view(fs);
                let all = archive_listing(opened);
                assert(all == Listing::Files(listed));
                assert(listed[k].0 == fs[k].filename@);
                assert(listed.len() == fs.len());
                assert(all->Files_0 == listed);
            }
        }
        assert(listing_view(r) == archive_listing(opened));
    }
    r
}

proof fn lemma_listing_stops(
    names: Seq<Option<Seq<char>>>,
    texts: Seq<Option<Seq<char>>>,
    k: int,
    n: int,
)
    requires
        0 <= k <= n,
        !(listing(names, texts, k) is Files),
    ensures
        listing(names, texts, n) == listing(names, texts, k),
    decreases n - k,
{
    if k < n {
        lemma_listing_stops(names, texts, k, n - 1);
    }
}

proof fn lemma_listing_no_directories(
    names: Seq<Option<Seq<char>>>,
    texts: Seq<Option<Seq<char>>>,
    n: int,
)
    ensures
        listing(names, texts, n) is Files ==> forall|k: int|
            0 <= k < listing(names, texts, n)->Files_0.len() ==> !ends_with(
                #[trigger] listing(names, texts, n)->Files_0[k].0,
                "/"@,
            ),
    decreases n,
{
    if n > 0 {
        lemma_listing_no_directories(names, texts, n - 1);
    }
}

} // verus!
