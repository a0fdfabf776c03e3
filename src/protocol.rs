//! The messages a client and a file server exchange, as plain values. The
//! wire encoding lives outside the core.
use vstd::prelude::*;

verus! {

#[derive(Copy, Clone, PartialEq, Eq, Hash, Debug, Structural)]
pub struct MessageId(pub u64);

#[derive(Copy, Clone, PartialEq, Eq, Hash, Debug, Structural)]
pub struct FileId(pub u64);

/// How lines end in a file.
#[derive(Copy, Clone, PartialEq, Eq, Debug, Structural)]
pub enum LineEnding {
    LF,
    CRLF,
}

/// The line ending a text that holds a newline uses: CRLF where the first
/// newline follows a carriage return.
pub open spec fn line_ending_of(s: Seq<char>) -> Option<LineEnding> {
    if exists|i: int| 0 <= i < s.len() && s[i] == '\n' {
        let i = choose|i: int| 0 <= i < s.len() && s[i] == '\n' && forall|j: int| 0 <= j < i ==> s[j] != '\n';
        Some(if i > 0 && s[i - 1] == '\r' {
            LineEnding::CRLF
        } else {
            LineEnding::LF
        })
    } else {
        None
    }
}

impl LineEnding {
    /// The line ending of a new file.
    pub fn default_ending() -> (r: LineEnding)
        ensures
            r == LineEnding::LF,
    {
        LineEnding::LF
    }

    /// The line ending `s` uses; LF where `s` holds no newline.
    pub fn from_analysis(s: &str) -> (r: LineEnding)
        ensures
            r == (match line_ending_of(s@) {
                Some(e) => e,
                None => LineEnding::LF,
            }),
    {
        let v = crate::piece_table::chars_of(s);
        let mut i: usize = 0;
        while i < v.len()
            invariant
                v@ == s@,
                i <= v@.len(),
                forall|j: int| 0 <= j < i ==> v@[j] != '\n',
            decreases v@.len() - i,
        {
            if v[i] == '\n' {
                let r = if i > 0 && v[i - 1] == '\r' {
                    LineEnding::CRLF
                } else {
                    LineEnding::LF
                };
                proof {
                    let k = choose|k: int|
                        0 <= k < s@.len() && s@[k] == '\n' && forall|j: int|
                            0 <= j < k ==> s@[j] != '\n';
                    assert(0 <= i < s@.len() && s@[i as int] == '\n');
                    if k < i {
                        assert(s@[k] != '\n');
                    }
                    if k > i {
                        assert(s@[i as int] != '\n');
                    }
                    assert(k == i);
                }
                return r;
            }
            i = i + 1;
        }
        LineEnding::LF
    }

    /// The characters that end a line.
    pub fn as_str(&self) -> (r: &'static str)
        ensures
            *self == LineEnding::LF ==> r@ == seq!['\n'],
            *self == LineEnding::CRLF ==> r@ == seq!['\r', '\n'],
    {
        proof {
            reveal_strlit("\n");
            reveal_strlit("\r\n");
        }
        match self {
            LineEnding::LF => "\n",
            LineEnding::CRLF => "\r\n",
        }
    }
}

/// A four-letter tag for the kind of a file.
#[derive(Copy, Clone, PartialEq, Eq, Debug)]
pub struct FileType {
    pub data: [u8; 4],
}

impl FileType {
    /// The kind of plain text.
    pub fn text() -> (r: FileType)
        ensures
            r.data@ == seq![116u8, 101u8, 120u8, 116u8],
    {
        let r = FileType { data: [116u8, 101u8, 120u8, 116u8] };
        proof {
            assert(r.data@ =~= seq![116u8, 101u8, 120u8, 116u8]);
        }
        r
    }
}

#[derive(Copy, Clone, PartialEq, Eq, Debug)]
pub struct TextFormat {
    pub line_ending: LineEnding,
    pub stype: FileType,
}

impl TextFormat {
    /// The format of `s`: its line ending, as plain text.
    pub fn from_analysis(s: &str) -> (r: TextFormat)
        ensures
            r.line_ending == (match line_ending_of(s@) {
                Some(e) => e,
                None => LineEnding::LF,
            }),
            r.stype.data@ == seq![116u8, 101u8, 120u8, 116u8],
    {
        TextFormat { line_ending: LineEnding::from_analysis(s), stype: FileType::text() }
    }
}

pub enum Request {
    OpenFile { path: String },
    SyncFile { id: FileId, new_text: String, version: usize },
    ReloadFile(FileId),
    CloseFile(FileId),
}

pub struct MsgRequest {
    pub msg_id: MessageId,
    pub msg: Request,
}

pub enum Response {
    Ack,
    Error { message: String },
    VersionConflict {
        id: FileId,
        client_version_recieved: usize,
        server_version: usize,
        server_text: String,
    },
    FileInfo { id: FileId, contents: String, version: usize, format: TextFormat },
}

pub struct MsgResponse {
    pub req_id: MessageId,
    pub msg: Response,
}

} // verus!
