//! Property identifiers used by this reader. Everything here is below 0x8000, so
//! none of it needs the named-property map.

use vstd::prelude::*;

verus! {

pub const MESSAGE_CLASS: u16 = 0x001A;
pub const IMPORTANCE: u16 = 0x0017;
pub const CLIENT_SUBMIT_TIME: u16 = 0x0039;
pub const SUBJECT: u16 = 0x0037;
pub const CONVERSATION_TOPIC: u16 = 0x0070;
/// `PidTagSentRepresentingName`. Contents tables carry this instead of
/// [`SENDER_NAME`], which appears only on the message itself.
pub const SENT_REPRESENTING_NAME: u16 = 0x0042;
pub const SENDER_NAME: u16 = 0x0C1A;
pub const SENDER_EMAIL: u16 = 0x0C1F;
/// `PidTagSenderEntryId`. A contents table carries this for every row, and it
/// embeds the sender's display name and address; see
/// [`super::entryid_address`].
pub const SENDER_ENTRY_ID: u16 = 0x0C19;
/// `PidTagSentRepresentingEntryId`, the on-behalf-of counterpart.
pub const SENT_REPRESENTING_ENTRY_ID: u16 = 0x0041;
pub const RECIPIENT_TYPE: u16 = 0x0C15;
pub const DISPLAY_BCC: u16 = 0x0E02;
pub const DISPLAY_CC: u16 = 0x0E03;
pub const DISPLAY_TO: u16 = 0x0E04;
pub const MESSAGE_DELIVERY_TIME: u16 = 0x0E06;
pub const MESSAGE_FLAGS: u16 = 0x0E07;
pub const MESSAGE_SIZE: u16 = 0x0E08;
pub const HAS_ATTACHMENTS: u16 = 0x0E1B;
pub const ATTACH_SIZE: u16 = 0x0E20;
pub const BODY: u16 = 0x1000;
pub const RTF_COMPRESSED: u16 = 0x1009;
pub const HTML: u16 = 0x1013;
pub const INTERNET_MESSAGE_ID: u16 = 0x1035;
pub const DISPLAY_NAME: u16 = 0x3001;
pub const EMAIL_ADDRESS: u16 = 0x3003;
pub const LAST_MODIFICATION_TIME: u16 = 0x3008;
pub const CONTENT_COUNT: u16 = 0x3602;
pub const CONTENT_UNREAD: u16 = 0x3603;
pub const SUBFOLDERS: u16 = 0x360A;
pub const ATTACH_DATA_BINARY: u16 = 0x3701;
pub const ATTACH_FILENAME: u16 = 0x3704;
pub const ATTACH_METHOD: u16 = 0x3705;
pub const ATTACH_LONG_FILENAME: u16 = 0x3707;
pub const ATTACH_MIME_TAG: u16 = 0x370E;
pub const ATTACH_CONTENT_ID: u16 = 0x3712;
pub const SMTP_ADDRESS: u16 = 0x39FE;

} // verus!
