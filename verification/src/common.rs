//! What every search tool has: settings, and messages for the user.

use crate::fingerprint_matching::texts;
use vstd::prelude::*;

verus! {

/// Messages for the user.
#[derive(Debug)]
pub struct TextMessages {
    pub messages: Vec<String>,
    pub warnings: Vec<String>,
    pub errors: Vec<String>,
}

/// Messages for the user as mathematical values.
#[verifier::ext_equal]
pub struct MessagesModel {
    pub messages: Seq<Seq<char>>,
    pub warnings: Seq<Seq<char>>,
    pub errors: Seq<Seq<char>>,
}

impl View for TextMessages {
    type V = MessagesModel;

    open spec fn view(&self) -> MessagesModel {
        MessagesModel {
            messages: texts(self.messages@),
            warnings: texts(self.warnings@),
            errors: texts(self.errors@),
        }
    }
}

/// Two batches of messages together.
pub open spec fn joined_messages(a: MessagesModel, b: MessagesModel) -> MessagesModel {
    MessagesModel {
        messages: a.messages + b.messages,
        warnings: a.warnings + b.warnings,
        errors: a.errors + b.errors,
    }
}

/// Appends texts.
pub fn append_texts(list: &mut Vec<String>, more: Vec<String>)
    ensures
        texts(final(list)@) == texts(old(list)@) + texts(more@),
{
    let mut more = more;
    let ghost added = more@;
    let ghost before = list@;
    list.append(&mut more);
    assert(texts(list@) =~= texts(before) + texts(added));
}

impl TextMessages {
    /// No messages.
    pub fn new() -> (r: TextMessages)
        ensures
            r@ == (MessagesModel {
                messages: Seq::empty(),
                warnings: Seq::empty(),
                errors: Seq::empty(),
            }),
    {
        let r = TextMessages { messages: Vec::new(), warnings: Vec::new(), errors: Vec::new() };
        assert(r@ =~= (MessagesModel {
            messages: Seq::empty(),
            warnings: Seq::empty(),
            errors: Seq::empty(),
        }));
        r
    }

    /// Takes over other messages.
    pub fn extend_with_another_messages(&mut self, other: TextMessages)
        ensures
            final(self)@ == joined_messages(old(self)@, other@),
    {
        append_texts(&mut self.messages, other.messages);
        append_texts(&mut self.warnings, other.warnings);
        append_texts(&mut self.errors, other.errors);
    }
}

/// The settings of a tool and what it has to say.
#[derive(Debug)]
pub struct CommonToolData {
    pub text_messages: TextMessages,
    /// Directories whose files are kept and only serve to find duplicates elsewhere.
    pub reference_directories: Vec<String>,
    pub use_reference_folders: bool,
    pub use_cache: bool,
    /// Whether records of files that have changed or are gone are dropped from caches.
    pub delete_outdated_cache: bool,
    /// Whether duplicates are to be deleted in some way.
    pub delete_requested: bool,
    pub stopped_search: bool,
}

/// The settings of a tool as mathematical values.
#[verifier::ext_equal]
pub struct CommonModel {
    pub text_messages: MessagesModel,
    pub reference_directories: Seq<Seq<char>>,
    pub use_reference_folders: bool,
    pub use_cache: bool,
    pub delete_outdated_cache: bool,
    pub delete_requested: bool,
    pub stopped_search: bool,
}

impl View for CommonToolData {
    type V = CommonModel;

    open spec fn view(&self) -> CommonModel {
        CommonModel {
            text_messages: self.text_messages@,
            reference_directories: texts(self.reference_directories@),
            use_reference_folders: self.use_reference_folders,
            use_cache: self.use_cache,
            delete_outdated_cache: self.delete_outdated_cache,
            delete_requested: self.delete_requested,
            stopped_search: self.stopped_search,
        }
    }
}

impl CommonToolData {
    /// The settings that a tool starts with.
    pub fn new() -> (r: CommonToolData)
        ensures
            r@ == (CommonModel {
                text_messages: MessagesModel {
                    messages: Seq::empty(),
                    warnings: Seq::empty(),
                    errors: Seq::empty(),
                },
                reference_directories: Seq::empty(),
                use_reference_folders: false,
                use_cache: true,
                delete_outdated_cache: true,
                delete_requested: false,
                stopped_search: false,
            }),
    {
        let r = CommonToolData {
            text_messages: TextMessages::new(),
            reference_directories: Vec::new(),
            use_reference_folders: false,
            use_cache: true,
            delete_outdated_cache: true,
            delete_requested: false,
            stopped_search: false,
        };
        assert(r@.reference_directories =~= Seq::empty());
        r
    }
}

} // verus!
