//! Where texts are kept under a path.

use vstd::hash_map::StringHashMap;
use vstd::prelude::*;

verus! {

/// The error of `std::io`: a value that is handed on and never looked into.
#[verifier::external_type_specification]
#[verifier::external_body]
pub struct ExIoError(std::io::Error);

/// A store of texts under paths. A store may fail at any call.
pub trait FileSystemOperations {
    /// The texts that the store keeps, each under its path, where the store
    /// tells. A store tells nothing unless it says otherwise, and nothing
    /// is then promised of what it answers.
    open spec fn kept(&self) -> Option<Map<Seq<char>, Seq<char>>> {
        None
    }

    /// Whether a text is kept under `file_path`. A store that tells what
    /// it keeps answers by that.
    fn file_exists(&self, file_path: &str) -> (found: bool)
        ensures
            self.kept() matches Some(texts) ==> found == texts.contains_key(file_path@),
    ;

    /// The text kept under `file_path`. A store that tells what it keeps
    /// hands out no other text.
    fn read_file(&self, file_path: &str) -> (read: Result<String, std::io::Error>)
        ensures
            self.kept() matches Some(texts) ==> (read matches Ok(content) ==> texts.contains_key(
                file_path@,
            ) && content@ == texts[file_path@]),
    ;

    /// Keeps `content` under `file_path`, in place of what was there. A
    /// store that tells what it keeps has, after a success, that one text
    /// changed and no other.
    fn write_file(&mut self, file_path: &str, content: &str) -> (written: Result<
        (),
        std::io::Error,
    >)
        ensures
            old(self).kept() matches Some(texts) ==> (written is Ok ==> final(self).kept() == Some(
                texts.insert(file_path@, content@),
            )),
    ;
}

/// A store in memory.
pub struct FakeFileSystem {
    pub file_contents: StringHashMap<String>,
}

/// Makes, with `std::io::Error::new`, an error of the kind `NotFound`
/// that carries `message`. Nothing is claimed of it.
#[verifier::external_body]
fn not_found(message: &str) -> std::io::Error {
    std::io::Error::new(std::io::ErrorKind::NotFound, message)
}

impl Default for FakeFileSystem {
    fn default() -> (store: Self)
        ensures
            store.file_contents@ == Map::<Seq<char>, String>::empty(),
    {
        FakeFileSystem { file_contents: StringHashMap::new() }
    }
}

impl FakeFileSystem {
    /// The texts of `contents`, each under its path.
    pub open spec fn texts(contents: Map<Seq<char>, String>) -> Map<Seq<char>, Seq<char>> {
        contents.map_values(|content: String| content@)
    }
}

impl FileSystemOperations for FakeFileSystem {
    open spec fn kept(&self) -> Option<Map<Seq<char>, Seq<char>>> {
        Some(Self::texts(self.file_contents@))
    }

    fn file_exists(&self, file_path: &str) -> (found: bool)
        ensures
            found == self.file_contents@.contains_key(file_path@),
    {
        self.file_contents.contains_key(file_path)
    }

    fn read_file(&self, file_path: &str) -> (read: Result<String, std::io::Error>)
        ensures
            read is Ok <==> self.file_contents@.contains_key(file_path@),
            read matches Ok(content) ==> content@ == self.file_contents@[file_path@]@,
    {
        match self.file_contents.get(file_path) {
            Some(content) => Ok(content.clone()),
            None => Err(not_found("File not found")),
        }
    }

    fn write_file(&mut self, file_path: &str, content: &str) -> (written: Result<
        (),
        std::io::Error,
    >)
        ensures
            written is Ok,
            final(self).file_contents@.dom() == old(self).file_contents@.dom().insert(file_path@),
            final(self).file_contents@[file_path@]@ == content@,
            forall|other: Seq<char>|
                other != file_path@ && old(self).file_contents@.contains_key(other)
                    ==> final(self).file_contents@[other] == old(self).file_contents@[other],
    {
        self.file_contents.insert(file_path.to_owned(), content.to_owned());
        assert(Self::texts(self.file_contents@) =~= Self::texts(old(self).file_contents@).insert(
            file_path@,
            content@,
        ));
        Ok(())
    }
}

} // verus!
