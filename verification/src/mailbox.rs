//! The [`Mailbox`] trait: one interface, several backends.
//!
//! The tools are written against this trait rather than against any one backend,
//! so the PFF reader and the Outlook for Mac reader sit behind it alike.
//!
//! Ids are `i64` everywhere at this boundary, even though a PFF's own node ids
//! are `u32`: a SQLite rowid is `i64`, and the public `nid` column is a `BIGINT`.

use vstd::prelude::*;
use crate::errors::ErrorV;
use crate::text;
use crate::views;

verus! {

#[derive(Debug)]
pub enum Error {
    /// The operating system's description of what failed.
    Io(String),
    /// The store is the right kind of file but a structure did not match what
    /// this reader expects.
    Format(String),
    /// A store variant this reader does not implement.
    Unsupported(String),
    NotFound(String),
}

impl View for Error {
    type V = ErrorV;

    open spec fn view(&self) -> ErrorV {
        match *self {
            Error::Io(m) => ErrorV::Io(m@),
            Error::Format(m) => ErrorV::Format(m@),
            Error::Unsupported(m) => ErrorV::Unsupported(m@),
            Error::NotFound(m) => ErrorV::NotFound(m@),
        }
    }
}

impl Error {
    /// The error as it is shown to the user.
    pub fn display(&self) -> (r: String)
        ensures
            r@ == self@.shown(),
    {
        match self {
            Error::Io(m) => text::cat2("io: ", m.as_str()),
            Error::Format(m) => text::cat2("malformed: ", m.as_str()),
            Error::Unsupported(m) => text::cat2("unsupported: ", m.as_str()),
            Error::NotFound(m) => text::cat2("not found: ", m.as_str()),
        }
    }
}

#[derive(Clone, Debug)]
pub struct Folder {
    pub id: i64,
    pub parent_id: Option<i64>,
    /// `None` when the backend has no real name to report, which includes the
    /// case that the only value on disk is a known-inert placeholder. A
    /// placeholder is not a name.
    pub name: Option<String>,
    /// Slash-delimited path from the store root.
    pub path: String,
    pub item_count: Option<i64>,
    pub unread_count: Option<i64>,
    pub has_subfolders: bool,
    /// A search folder (or equivalent virtual folder) owns no contents of its
    /// own and is skipped when a caller sweeps every folder's messages.
    pub is_search_folder: bool,
}

/// A message as seen from its folder's listing: cheap to list in bulk, with no
/// body and no attachment payloads.
#[derive(Clone, Debug)]
pub struct MessageRow {
    pub id: i64,
    pub folder_id: i64,
    pub subject: Option<String>,
    pub sender_name: Option<String>,
    pub sender_email: Option<String>,
    pub delivered_us: Option<i64>,
    pub submitted_us: Option<i64>,
    pub modified_us: Option<i64>,
    pub size: Option<i64>,
    pub unread: Option<bool>,
    pub has_attachments: Option<bool>,
    pub message_class: Option<String>,
}

#[derive(Clone, Debug)]
pub struct Recipient {
    /// 1 = To, 2 = Cc, 3 = Bcc, matching `PidTagRecipientType`; other backends
    /// map onto the same three codes.
    pub kind: Option<i32>,
    pub name: Option<String>,
    pub email: Option<String>,
}

#[derive(Clone, Debug)]
pub struct Attachment {
    pub id: i64,
    pub filename: Option<String>,
    pub mime: Option<String>,
    pub content_id: Option<String>,
    pub declared_size: Option<i64>,
    /// Payload length in bytes, or `None` when the backend cannot report one
    /// without reading the payload (or the attachment is not a byte stream).
    pub data_len: Option<usize>,
}

#[derive(Clone, Debug)]
pub struct Message {
    pub id: i64,
    pub subject: Option<String>,
    pub sender_name: Option<String>,
    pub sender_email: Option<String>,
    pub display_to: Option<String>,
    pub display_cc: Option<String>,
    pub display_bcc: Option<String>,
    pub delivered_us: Option<i64>,
    pub submitted_us: Option<i64>,
    pub modified_us: Option<i64>,
    pub size: Option<i64>,
    pub unread: Option<bool>,
    pub message_class: Option<String>,
    pub internet_message_id: Option<String>,
    pub conversation_topic: Option<String>,
    /// Plain text, if the backend has it.
    pub body_plain: Option<String>,
    pub body_html: Option<String>,
    pub body_rtf: Option<String>,
    pub recipients: Vec<Recipient>,
    pub attachments: Vec<Attachment>,
}

/// A folder with its texts as sequences of characters.
pub struct FolderV {
    pub id: i64,
    pub parent_id: Option<i64>,
    pub name: Option<Seq<char>>,
    pub path: Seq<char>,
    pub item_count: Option<i64>,
    pub unread_count: Option<i64>,
    pub has_subfolders: bool,
    pub is_search_folder: bool,
}

/// A message row with its texts as sequences of characters.
pub struct MessageRowV {
    pub id: i64,
    pub folder_id: i64,
    pub subject: Option<Seq<char>>,
    pub sender_name: Option<Seq<char>>,
    pub sender_email: Option<Seq<char>>,
    pub delivered_us: Option<i64>,
    pub submitted_us: Option<i64>,
    pub modified_us: Option<i64>,
    pub size: Option<i64>,
    pub unread: Option<bool>,
    pub has_attachments: Option<bool>,
    pub message_class: Option<Seq<char>>,
}

/// A recipient with its texts as sequences of characters.
pub struct RecipientV {
    pub kind: Option<i32>,
    pub name: Option<Seq<char>>,
    pub email: Option<Seq<char>>,
}

/// Attachment metadata with its texts as sequences of characters.
pub struct AttachmentV {
    pub id: i64,
    pub filename: Option<Seq<char>>,
    pub mime: Option<Seq<char>>,
    pub content_id: Option<Seq<char>>,
    pub declared_size: Option<i64>,
    pub data_len: Option<nat>,
}

/// A message with its texts as sequences of characters.
pub struct MessageV {
    pub id: i64,
    pub subject: Option<Seq<char>>,
    pub sender_name: Option<Seq<char>>,
    pub sender_email: Option<Seq<char>>,
    pub display_to: Option<Seq<char>>,
    pub display_cc: Option<Seq<char>>,
    pub display_bcc: Option<Seq<char>>,
    pub delivered_us: Option<i64>,
    pub submitted_us: Option<i64>,
    pub modified_us: Option<i64>,
    pub size: Option<i64>,
    pub unread: Option<bool>,
    pub message_class: Option<Seq<char>>,
    pub internet_message_id: Option<Seq<char>>,
    pub conversation_topic: Option<Seq<char>>,
    pub body_plain: Option<Seq<char>>,
    pub body_html: Option<Seq<char>>,
    pub body_rtf: Option<Seq<char>>,
    pub recipients: Seq<RecipientV>,
    pub attachments: Seq<AttachmentV>,
}

impl View for Folder {
    type V = FolderV;

    open spec fn view(&self) -> FolderV {
        FolderV {
            id: self.id,
            parent_id: self.parent_id,
            name: text::opt_text(self.name),
            path: self.path@,
            item_count: self.item_count,
            unread_count: self.unread_count,
            has_subfolders: self.has_subfolders,
            is_search_folder: self.is_search_folder,
        }
    }
}

impl View for MessageRow {
    type V = MessageRowV;

    open spec fn view(&self) -> MessageRowV {
        MessageRowV {
            id: self.id,
            folder_id: self.folder_id,
            subject: text::opt_text(self.subject),
            sender_name: text::opt_text(self.sender_name),
            sender_email: text::opt_text(self.sender_email),
            delivered_us: self.delivered_us,
            submitted_us: self.submitted_us,
            modified_us: self.modified_us,
            size: self.size,
            unread: self.unread,
            has_attachments: self.has_attachments,
            message_class: text::opt_text(self.message_class),
        }
    }
}

impl View for Recipient {
    type V = RecipientV;

    open spec fn view(&self) -> RecipientV {
        RecipientV {
            kind: self.kind,
            name: text::opt_text(self.name),
            email: text::opt_text(self.email),
        }
    }
}

impl View for Attachment {
    type V = AttachmentV;

    open spec fn view(&self) -> AttachmentV {
        AttachmentV {
            id: self.id,
            filename: text::opt_text(self.filename),
            mime: text::opt_text(self.mime),
            content_id: text::opt_text(self.content_id),
            declared_size: self.declared_size,
            data_len: match self.data_len {
                Some(n) => Some(n as nat),
                None => None,
            },
        }
    }
}

impl View for Message {
    type V = MessageV;

    open spec fn view(&self) -> MessageV {
        MessageV {
            id: self.id,
            subject: text::opt_text(self.subject),
            sender_name: text::opt_text(self.sender_name),
            sender_email: text::opt_text(self.sender_email),
            display_to: text::opt_text(self.display_to),
            display_cc: text::opt_text(self.display_cc),
            display_bcc: text::opt_text(self.display_bcc),
            delivered_us: self.delivered_us,
            submitted_us: self.submitted_us,
            modified_us: self.modified_us,
            size: self.size,
            unread: self.unread,
            message_class: text::opt_text(self.message_class),
            internet_message_id: text::opt_text(self.internet_message_id),
            conversation_topic: text::opt_text(self.conversation_topic),
            body_plain: text::opt_text(self.body_plain),
            body_html: text::opt_text(self.body_html),
            body_rtf: text::opt_text(self.body_rtf),
            recipients: views::views(self.recipients@),
            attachments: views::views(self.attachments@),
        }
    }
}

/// One mounted mailbox, whatever is backing it.
pub trait Mailbox: Send + Sync {
    /// A short, stable tag identifying the backend, e.g. `"ost-v36"`,
    /// `"mac-olk15"`. Surfaced in `store_info`, not parsed by anything.
    fn kind(&self) -> &'static str;

    fn display_name(&self) -> Option<String>;

    /// Every folder reachable from the root, breadth-first, with paths.
    fn folders(&self) -> Result<Vec<Folder>, Error>;

    /// Rows of one folder's contents. Any field can be `None` for reasons
    /// unrelated to the message.
    fn messages(&self, folder_id: i64) -> Result<Vec<MessageRow>, Error>;

    /// A full message: properties, bodies, recipients, attachment metadata.
    fn message(&self, id: i64) -> Result<Message, Error>;

    /// Attachment metadata for a message. Empty when it has none.
    fn attachments(&self, message_id: i64) -> Result<Vec<Attachment>, Error>;

    /// Payload bytes of one attachment.
    fn attachment_bytes(&self, message_id: i64, attachment_id: i64) -> Result<Vec<u8>, Error>;
}

} // verus!
