//! Reading and rewriting the comment block of an Ogg Vorbis stream.
//!
//! The comment block holds a vendor text and an ordered list of tags. This
//! crate edits such a list, lays it out as the bytes of a comment packet, and
//! rewrites a container so that its comment packet carries a new list while
//! every other packet passes through as it came.

pub mod seqs;
pub mod text;
pub mod comments;
pub mod encode;
pub mod decode;
pub mod container;
pub mod rewrite;
pub mod read;

pub use comments::CommentHeader;
pub use container::{Outgoing, Packet, PacketEnd};
pub use decode::read_comment_block;
pub use encode::{make_comment_header, safe_make_comment_header, VorbisMakeCommentError};
pub use read::{safe_read_comment_header, VorbisReadCommentError};
pub use rewrite::{safe_replace_comment_header, Rewriter, VorbisReplaceCommentError};
