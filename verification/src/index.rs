use vstd::prelude::*;
use crate::directory::Directory;
use crate::ram_directory::RAMDirectory;
use crate::tokenizer::TokenizerManager;

verus! {

/// The entry point of the indexing engine: a storage backend together with
/// the analyzer registry the indexing layers draw from.
pub struct Index {
    directory: RAMDirectory,
    tokenizers: TokenizerManager,
}

impl Index {
    /// The namespace of the index's backing directory.
    pub closed spec fn dir_files(&self) -> Map<Seq<char>, Seq<u8>> {
        self.directory.files()
    }

    /// Whether an analyzer is registered under `name`.
    pub closed spec fn tokenizer_registered(&self, name: Seq<char>) -> bool {
        self.tokenizers.registered(name)
    }

    /// A fresh index over an empty in-memory directory, with the built-in
    /// analyzer registered under the name `default`.
    pub fn create_in_ram() -> (index: Index)
        ensures
            index.dir_files() == Map::<Seq<char>, Seq<u8>>::empty(),
            index.tokenizer_registered("default"@),
    {
        let ram_directory = RAMDirectory::create();
        Index { directory: ram_directory, tokenizers: TokenizerManager::default() }
    }
}

} // verus!
