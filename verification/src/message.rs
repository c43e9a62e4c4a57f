//! The e-mail message of a digest, built with `lettre`.

use crate::email::EmailAttachment;
use vstd::prelude::*;

verus! {

use crate::email::AttachmentView;
use crate::text::texts;

/// `lettre::Message`, carried through unread.
#[verifier::external_type_specification]
#[verifier::external_body]
pub struct ExMessage(lettre::Message);

/// `lettre::message::MessageBuilder`, carried through unread.
#[verifier::external_type_specification]
#[verifier::external_body]
pub struct ExMessageBuilder(lettre::message::MessageBuilder);

/// `lettre::message::Mailbox`, carried through unread.
#[verifier::external_type_specification]
#[verifier::external_body]
pub struct ExMailbox(lettre::message::Mailbox);

/// `lettre::message::header::ContentType`, carried through unread.
#[verifier::external_type_specification]
#[verifier::external_body]
pub struct ExContentType(lettre::message::header::ContentType);

/// `lettre::message::header::ContentTypeErr`, carried through unread.
#[verifier::external_type_specification]
#[verifier::external_body]
pub struct ExContentTypeErr(lettre::message::header::ContentTypeErr);

/// `lettre::address::AddressError`, carried through unread.
#[verifier::external_type_specification]
#[verifier::external_body]
pub struct ExAddressError(lettre::address::AddressError);

/// `lettre::error::Error`, carried through unread.
#[verifier::external_type_specification]
#[verifier::external_body]
pub struct ExLettreError(lettre::error::Error);

/// `lettre::message::SinglePart`, carried through unread.
#[verifier::external_type_specification]
#[verifier::external_body]
pub struct ExSinglePart(lettre::message::SinglePart);

/// `lettre::message::MultiPart`, carried through unread.
#[verifier::external_type_specification]
#[verifier::external_body]
pub struct ExMultiPart(lettre::message::MultiPart);

/// A file inside a message. `content_type` is `None` for plain text, which stands
/// in for a media type that is not well formed.
pub struct FilePart {
    pub filename: Seq<char>,
    pub content: Seq<char>,
    pub content_type: Option<Seq<char>>,
}

/// One part of a message.
pub enum PartView {
    /// Plain text.
    Text(Seq<char>),
    /// An attached file.
    File(FilePart),
}

/// The content of a message.
pub enum ContentView {
    /// One text, of a media type that is `None` for plain text.
    Single(Option<Seq<char>>, Seq<char>),
    /// A `multipart/mixed` list of parts, in order.
    Mixed(Seq<PartView>),
}

/// What `lettre` is handed for a message: the texts of the addresses, the subject,
/// and the content.
pub struct MessageView {
    pub from: Seq<char>,
    pub to: Seq<Seq<char>>,
    pub subject: Seq<char>,
    pub content: ContentView,
}

/// What `lettre` has against `text` as the text of a mailbox, if it is not one.
pub uninterp spec fn mailbox_rejection(text: Seq<char>) -> Option<Seq<char>>;

/// Whether `mailbox` is what `text` reads as.
pub uninterp spec fn mailbox_reads(text: Seq<char>, mailbox: lettre::message::Mailbox) -> bool;

/// Whether reading `text` as a mailbox fails with `error`.
pub uninterp spec fn mailbox_fails(text: Seq<char>, error: lettre::address::AddressError) -> bool;

/// Whether `text` is a well-formed media type.
pub uninterp spec fn is_media_type(text: Seq<char>) -> bool;

/// Whether `content_type` is what the media type `text` reads as, or, for `None`,
/// plain text.
pub uninterp spec fn content_type_reads(
    text: Option<Seq<char>>,
    content_type: lettre::message::header::ContentType,
) -> bool;

/// Whether `draft` is what `lettre` makes of the sender `from`, the subject
/// `subject` and the recipients `to`, handed to it in this order. The draft need not
/// hold all of them: with each further recipient `lettre` reads back those that it
/// has written down, and drops them where they do not read back, as
/// `"\"a,b\""@example.com` does not.
pub uninterp spec fn drafted(
    from: Seq<char>,
    subject: Seq<char>,
    to: Seq<Seq<char>>,
    draft: lettre::message::MessageBuilder,
) -> bool;

/// Whether `part` is what `lettre` made of `view`.
pub uninterp spec fn part_made(view: PartView, part: lettre::message::SinglePart) -> bool;

/// Whether `list` is the `multipart/mixed` list of `parts`, in this order.
pub uninterp spec fn mixed_of(parts: Seq<PartView>, list: lettre::message::MultiPart) -> bool;

/// Whether `lettre` puts a message together whose addresses were handed to it as
/// `from` and `to`. Beside the headers of these it looks at nothing.
pub uninterp spec fn assembles(from: Seq<char>, to: Seq<Seq<char>>) -> bool;

/// Whether `message` is what `lettre` made of `parts`.
pub uninterp spec fn built(parts: MessageView, message: lettre::Message) -> bool;

/// `Mailbox`'s `FromStr`: reads the text of a mailbox, or says why it is not one.
/// Which of the two is a function of the text.
#[verifier::external_body]
fn parse_mailbox(text: &str) -> (r: Result<lettre::message::Mailbox, lettre::address::AddressError>)
    ensures
        match r {
            Ok(mailbox) => mailbox_reads(text@, mailbox) && mailbox_rejection(text@) is None,
            Err(error) => mailbox_fails(text@, error) && mailbox_rejection(text@) is Some,
        },
{
    text.parse()
}

/// The displayed text of an `AddressError`, a function of the text that was
/// rejected.
#[verifier::external_body]
fn address_error_text(error: &lettre::address::AddressError) -> (r: String)
    ensures
        forall|text: Seq<char>| #[trigger]
            mailbox_fails(text, *error) ==> mailbox_rejection(text) == Some(r@),
{
    error.to_string()
}

/// `ContentType::parse`: reads a media type, or says that it is not well formed.
#[verifier::external_body]
fn parse_content_type(text: &str) -> (r: Result<
    lettre::message::header::ContentType,
    lettre::message::header::ContentTypeErr,
>)
    ensures
        match r {
            Ok(content_type) => {
                &&& content_type_reads(Some(text@), content_type)
                &&& is_media_type(text@)
            },
            Err(_) => !is_media_type(text@),
        },
{
    lettre::message::header::ContentType::parse(text)
}

/// `ContentType::TEXT_PLAIN`, the media type of plain text.
#[verifier::external_body]
fn plain_text() -> (r: lettre::message::header::ContentType)
    ensures
        content_type_reads(None, r),
{
    lettre::message::header::ContentType::TEXT_PLAIN
}

/// `Message::builder` with `from` and `subject`: a draft without recipients.
#[verifier::external_body]
fn start_draft(
    from: lettre::message::Mailbox,
    subject: &str,
) -> (r: lettre::message::MessageBuilder)
    ensures
        forall|text: Seq<char>| #[trigger]
            mailbox_reads(text, from) ==> drafted(text, subject@, Seq::empty(), r),
{
    lettre::Message::builder().from(from).subject(subject)
}

/// `MessageBuilder::to`: hands over one more recipient. The contract speaks of what
/// was handed over, and leaves unsaid which recipients the draft holds.
#[verifier::external_body]
fn add_recipient(
    draft: lettre::message::MessageBuilder,
    mailbox: lettre::message::Mailbox,
) -> (r: lettre::message::MessageBuilder)
    ensures
        forall|from: Seq<char>, subject: Seq<char>, to: Seq<Seq<char>>, text: Seq<char>|
            #[trigger] drafted(from, subject, to, draft) && #[trigger] mailbox_reads(text, mailbox)
                ==> drafted(from, subject, to.push(text), r),
{
    draft.to(mailbox)
}

/// `SinglePart::plain`: a part of plain text.
#[verifier::external_body]
fn text_part(body: &str) -> (r: lettre::message::SinglePart)
    ensures
        part_made(PartView::Text(body@), r),
{
    lettre::message::SinglePart::plain(body.to_string())
}

/// `Attachment::new` with `body`: a part that is an attached file.
#[verifier::external_body]
fn attached_part(
    filename: String,
    content: String,
    content_type: lettre::message::header::ContentType,
) -> (r: lettre::message::SinglePart)
    ensures
        forall|media_type: Option<Seq<char>>| #[trigger]
            content_type_reads(media_type, content_type) ==> part_made(
                PartView::File(
                    FilePart { filename: filename@, content: content@, content_type: media_type },
                ),
                r,
            ),
{
    lettre::message::Attachment::new(filename).body(content, content_type)
}

/// `MultiPart::mixed`: a list of parts of the kind `multipart/mixed`, without parts
/// yet, and with a random boundary.
#[verifier::external_body]
fn no_parts() -> (r: lettre::message::MultiPart)
    ensures
        mixed_of(Seq::empty(), r),
{
    lettre::message::MultiPart::mixed().build()
}

/// `MultiPart::singlepart`: adds a part behind those that are there.
#[verifier::external_body]
fn add_part(
    list: lettre::message::MultiPart,
    part: lettre::message::SinglePart,
) -> (r: lettre::message::MultiPart)
    ensures
        forall|parts: Seq<PartView>, view: PartView| #[trigger]
            mixed_of(parts, list) && #[trigger] part_made(view, part) ==> mixed_of(
                parts.push(view),
                r,
            ),
{
    list.singlepart(part)
}

/// `MessageBuilder::body` with a header for the media type: a message that is one
/// text, stamped with the time at which it is built, or an error. It fails without
/// recipients; else whether it succeeds is a function of the addresses that were
/// handed over, which `lettre` reads back from the headers that it wrote.
#[verifier::external_body]
fn build_single(
    draft: lettre::message::MessageBuilder,
    content_type: lettre::message::header::ContentType,
    body: &str,
) -> (r: Result<lettre::Message, lettre::error::Error>)
    ensures
        forall|
            from: Seq<char>,
            subject: Seq<char>,
            to: Seq<Seq<char>>,
            media_type: Option<Seq<char>>,
        |
            #[trigger] drafted(from, subject, to, draft) && #[trigger] content_type_reads(
                media_type,
                content_type,
            ) ==> match r {
                Ok(message) => to.len() > 0 && assembles(from, to) && built(
                    MessageView {
                        from,
                        to,
                        subject,
                        content: ContentView::Single(media_type, body@),
                    },
                    message,
                ),
                Err(_) => to.len() == 0 || !assembles(from, to),
            },
{
    draft.header(content_type).body(body.to_string())
}

/// `MessageBuilder::multipart`: a message of a list of parts, stamped with the time at
/// which it is built, or an error. When it succeeds is as for a message that is one
/// text.
#[verifier::external_body]
fn build_mixed(
    draft: lettre::message::MessageBuilder,
    list: lettre::message::MultiPart,
) -> (r: Result<lettre::Message, lettre::error::Error>)
    ensures
        forall|from: Seq<char>, subject: Seq<char>, to: Seq<Seq<char>>, parts: Seq<PartView>|
            #[trigger] drafted(from, subject, to, draft) && #[trigger] mixed_of(parts, list)
                ==> match r {
                Ok(message) => to.len() > 0 && assembles(from, to) && built(
                    MessageView { from, to, subject, content: ContentView::Mixed(parts) },
                    message,
                ),
                Err(_) => to.len() == 0 || !assembles(from, to),
            },
{
    draft.multipart(list)
}

/// Why a message could not be built.
#[derive(Debug)]
pub enum MessageError {
    /// The sender's address is not one, for the reason given.
    Sender(String),
    /// The recipient at this position has an address that is not one, for the
    /// reason given. Those before it are in order.
    Recipient(usize, String),
    /// `lettre` did not put the message together.
    Assembly(lettre::error::Error),
}

/// The file part of an attachment.
pub open spec fn file_part(attachment: AttachmentView) -> FilePart {
    FilePart {
        filename: attachment.filename,
        content: attachment.content,
        content_type: if is_media_type(attachment.content_type) {
            Some(attachment.content_type)
        } else {
            None
        },
    }
}

/// The content of a message with the body `body`: the body alone, as plain text, or,
/// with an attachment, the body and behind it the file.
pub open spec fn message_content(
    body: Seq<char>,
    attachment: Option<AttachmentView>,
) -> ContentView {
    match attachment {
        Some(attachment) => ContentView::Mixed(
            seq![PartView::Text(body), PartView::File(file_part(attachment))],
        ),
        None => ContentView::Single(None, body),
    }
}

/// The position of the first of `to` that is not the text of a mailbox, or the
/// number of them.
pub open spec fn first_rejected(to: Seq<Seq<char>>) -> nat
    decreases to.len(),
{
    if to.len() == 0 || mailbox_rejection(to[0]) is Some {
        0
    } else {
        1 + first_rejected(to.skip(1))
    }
}

/// Whether `outcome` is what comes of building a message from `parts`: an error
/// for the first address that is not one, the sender's before the recipients', an
/// error without recipients, else what `lettre` makes of exactly those parts.
pub open spec fn message_outcome(
    parts: MessageView,
    outcome: Result<lettre::Message, MessageError>,
) -> bool {
    if mailbox_rejection(parts.from) is Some {
        outcome matches Err(MessageError::Sender(reason)) && mailbox_rejection(parts.from) == Some(
            reason@,
        )
    } else if first_rejected(parts.to) < parts.to.len() {
        &&& outcome matches Err(MessageError::Recipient(i, reason))
        &&& i == first_rejected(parts.to)
        &&& mailbox_rejection(parts.to[i as int]) == Some(reason@)
    } else {
        match outcome {
            Ok(message) => {
                &&& parts.to.len() > 0
                &&& assembles(parts.from, parts.to)
                &&& built(parts, message)
            },
            Err(error) => {
                &&& error is Assembly
                &&& parts.to.len() == 0 || !assembles(parts.from, parts.to)
            },
        }
    }
}

/// The parts of a message.
pub open spec fn message_parts(
    from: Seq<char>,
    to: Seq<Seq<char>>,
    subject: Seq<char>,
    body: Seq<char>,
    attachment: Option<AttachmentView>,
) -> MessageView {
    MessageView { from, to, subject, content: message_content(body, attachment) }
}

/// The view of an optional attachment.
pub open spec fn optional_attachment(attachment: Option<EmailAttachment>) -> Option<
    AttachmentView,
> {
    match attachment {
        Some(attachment) => Some(attachment@),
        None => None,
    }
}

/// Builds the message of these parts with `lettre`: a plain body, or, with an
/// attachment, a `multipart/mixed` message of the body and the attached file.
pub fn build_message(
    from: &str,
    to: &Vec<String>,
    subject: &str,
    body: &str,
    attachment: Option<EmailAttachment>,
) -> (r: Result<lettre::Message, MessageError>)
    ensures
        message_outcome(
            message_parts(from@, texts(to@), subject@, body@, optional_attachment(attachment)),
            r,
        ),
{
    let sender = match parse_mailbox(from) {
        Ok(mailbox) => mailbox,
        Err(error) => {
            return Err(MessageError::Sender(address_error_text(&error)));
        },
    };
    let ghost all = texts(to@);
    let mut draft = start_draft(sender, subject);
    let mut i: usize = 0;
    assert(all.take(0) == Seq::<Seq<char>>::empty());
    assert(all.skip(0) == all);
    while i < to.len()
        invariant
            i <= to.len(),
            all == texts(to@),
            mailbox_rejection(from@) is None,
            drafted(from@, subject@, all.take(i as int), draft),
            first_rejected(all) == i + first_rejected(all.skip(i as int)),
        decreases to.len() - i,
    {
        assert(all.skip(i as int).skip(1) == all.skip(i + 1));
        assert(all.take(i + 1) == all.take(i as int).push(to@[i as int]@));
        match parse_mailbox(to[i].as_str()) {
            Ok(mailbox) => {
                draft = add_recipient(draft, mailbox);
            },
            Err(error) => {
                assert(first_rejected(all.skip(i as int)) == 0);
                return Err(MessageError::Recipient(i, address_error_text(&error)));
            },
        }
        i += 1;
    }
    assert(all.take(all.len() as int) == all);
    assert(first_rejected(all) == all.len());
    let ghost given = optional_attachment(attachment);
    let outcome = match attachment {
        Some(attachment) => {
            let content_type = match parse_content_type(attachment.content_type.as_str()) {
                Ok(content_type) => content_type,
                Err(_) => plain_text(),
            };
            let file = attached_part(attachment.filename, attachment.content, content_type);
            let list = add_part(add_part(no_parts(), text_part(body)), file);
            let ghost view = PartView::File(file_part(given->0));
            assert(Seq::<PartView>::empty().push(PartView::Text(body@)).push(view)
                == seq![PartView::Text(body@), view]);
            build_mixed(draft, list)
        },
        None => build_single(draft, plain_text(), body),
    };
    match outcome {
        Ok(message) => Ok(message),
        Err(error) => Err(MessageError::Assembly(error)),
    }
}

/// The position of the first recipient that is rejected is one before which none is.
pub proof fn law_first_rejected_is_first(to: Seq<Seq<char>>)
    ensures
        first_rejected(to) <= to.len(),
        forall|i: int|
            0 <= i < first_rejected(to) ==> mailbox_rejection(#[trigger] to[i]) is None,
        first_rejected(to) < to.len() ==> mailbox_rejection(to[first_rejected(to) as int]) is Some,
    decreases to.len(),
{
    if to.len() > 0 && mailbox_rejection(to[0]) is None {
        let rest = to.skip(1);
        law_first_rejected_is_first(rest);
        assert forall|i: int| 0 <= i < first_rejected(to) implies mailbox_rejection(
            #[trigger] to[i],
        ) is None by {
            if i > 0 {
                assert(to[i] == rest[i - 1]);
            }
        }
        if first_rejected(to) < to.len() {
            assert(to[first_rejected(to) as int] == rest[first_rejected(rest) as int]);
        }
    }
}

/// A message is built only where every address is one and there is a recipient, and then
/// from all parts. A sender that is none is reported before any recipient, and of the
/// recipients that are none the first.
pub proof fn law_message_outcomes(
    parts: MessageView,
    outcome: Result<lettre::Message, MessageError>,
)
    requires
        message_outcome(parts, outcome),
    ensures
        mailbox_rejection(parts.from) matches Some(reason) ==> outcome matches Err(
            MessageError::Sender(text),
        ) && text@ == reason,
        outcome matches Ok(message) ==> {
            &&& mailbox_rejection(parts.from) is None
            &&& forall|i: int|
                0 <= i < parts.to.len() ==> mailbox_rejection(#[trigger] parts.to[i]) is None
            &&& parts.to.len() > 0
            &&& built(parts, message)
        },
        outcome matches Err(MessageError::Recipient(at, text)) ==> {
            &&& mailbox_rejection(parts.from) is None
            &&& at < parts.to.len()
            &&& mailbox_rejection(parts.to[at as int]) == Some(text@)
            &&& forall|i: int|
                0 <= i < at ==> mailbox_rejection(#[trigger] parts.to[i]) is None
        },
        outcome matches Err(MessageError::Sender(_)) ==> mailbox_rejection(parts.from) is Some,
        outcome matches Err(MessageError::Assembly(_)) ==> parts.to.len() == 0 || !assembles(
            parts.from,
            parts.to,
        ),
        mailbox_rejection(parts.from) is None && parts.to.len() > 0 && assembles(
            parts.from,
            parts.to,
        ) && (forall|i: int|
            0 <= i < parts.to.len() ==> mailbox_rejection(#[trigger] parts.to[i]) is None)
            ==> outcome is Ok,
{
    law_first_rejected_is_first(parts.to);
}

/// A message carries its sender, all recipients, the subject and the body, and with an
/// attachment behind the body the file, under its name and its media type where that is
/// one.
pub proof fn law_message_carries_all_parts(
    from: Seq<char>,
    to: Seq<Seq<char>>,
    subject: Seq<char>,
    body: Seq<char>,
    attachment: AttachmentView,
)
    ensures
        message_parts(from, to, subject, body, None) == (MessageView {
            from,
            to,
            subject,
            content: ContentView::Single(None, body),
        }),
        ({
            let parts = message_parts(from, to, subject, body, Some(attachment));
            &&& parts.from == from
            &&& parts.to == to
            &&& parts.subject == subject
            &&& parts.content matches ContentView::Mixed(list)
            &&& list.len() == 2
            &&& list[0] == PartView::Text(body)
            &&& list[1] matches PartView::File(file)
            &&& file.filename == attachment.filename
            &&& file.content == attachment.content
            &&& file.content_type == if is_media_type(attachment.content_type) {
                Some(attachment.content_type)
            } else {
                None
            }
        }),
{
}

} // verus!
