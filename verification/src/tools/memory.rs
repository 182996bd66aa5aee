//! The `memory` tool: what a call asks for and how it is answered.
use vstd::prelude::*;
use crate::text::{
    cat, decimal, decimal_of, in_order, join, join_of, law_joining_keeps_the_parts, lemma_in_order_concat,
    lemma_in_order_more, lemma_in_order_next, lemma_in_order_none, same, texts,
};
use crate::tools::{AskSender, PermCheck};

verus! {

/// The `memory` tool.
pub struct MemoryTool {
    pub permission: Option<PermCheck>,
    pub ask_tx: Option<AskSender>,
}

impl MemoryTool {
    /// The tool.
    pub fn new(permission: Option<PermCheck>, ask_tx: Option<AskSender>) -> (r: Self)
        ensures
            r.permission == permission,
            r.ask_tx == ask_tx,
    {
        MemoryTool { permission, ask_tx }
    }
}

/// Arguments of the `memory` tool.
#[derive(Debug)]
pub struct Args {
    pub action: String,
    pub path: Option<String>,
    pub content: Option<String>,
}

/// What a call asks for.
#[derive(Debug)]
pub enum MemoryRequest {
    Read(String),
    List,
    Write { path: String, content: String },
    Delete(String),
}

/// What a call asks for, as text.
pub enum MemoryRequestView {
    Read(Seq<char>),
    List,
    Write { path: Seq<char>, content: Seq<char> },
    Delete(Seq<char>),
}

impl View for MemoryRequest {
    type V = MemoryRequestView;

    open spec fn view(&self) -> MemoryRequestView {
        match self {
            MemoryRequest::Read(p) => MemoryRequestView::Read(p@),
            MemoryRequest::List => MemoryRequestView::List,
            MemoryRequest::Write { path, content } => MemoryRequestView::Write {
                path: path@,
                content: content@,
            },
            MemoryRequest::Delete(p) => MemoryRequestView::Delete(p@),
        }
    }
}

/// The request in the arguments, or the refusal: `view` reads one memory or, without
/// a path, lists them; `write` needs a path and contents; `delete` needs a path.
pub open spec fn request_of(a: Args) -> Result<MemoryRequestView, Seq<char>> {
    if a.action@ == "view"@ {
        match a.path {
            Some(p) => if p@.len() > 0 {
                Ok(MemoryRequestView::Read(p@))
            } else {
                Ok(MemoryRequestView::List)
            },
            None => Ok(MemoryRequestView::List),
        }
    } else if a.action@ == "write"@ {
        match (a.path, a.content) {
            (None, _) => Err("path required for write"@),
            (Some(p), None) => Err("content required for write"@),
            (Some(p), Some(c)) => Ok(MemoryRequestView::Write { path: p@, content: c@ }),
        }
    } else if a.action@ == "delete"@ {
        match a.path {
            None => Err("path required for delete"@),
            Some(p) => Ok(MemoryRequestView::Delete(p@)),
        }
    } else {
        Err("Unknown action '"@ + a.action@ + "'. Use view, write, or delete."@)
    }
}

/// Reads the request off the arguments.
pub fn memory_request(args: &Args) -> (r: Result<MemoryRequest, String>)
    ensures
        match r {
            Ok(q) => request_of(*args) == Ok::<MemoryRequestView, Seq<char>>(q@),
            Err(e) => request_of(*args) == Err::<MemoryRequestView, Seq<char>>(e@),
        },
{
    let action = args.action.as_str();
    if same(action, "view") {
        match &args.path {
            Some(p) => if p.as_str().is_empty() {
                Ok(MemoryRequest::List)
            } else {
                Ok(MemoryRequest::Read(p.clone()))
            },
            None => Ok(MemoryRequest::List),
        }
    } else if same(action, "write") {
        match &args.path {
            None => Err("path required for write".to_owned()),
            Some(p) => match &args.content {
                None => Err("content required for write".to_owned()),
                Some(c) => Ok(MemoryRequest::Write { path: p.clone(), content: c.clone() }),
            },
        }
    } else if same(action, "delete") {
        match &args.path {
            None => Err("path required for delete".to_owned()),
            Some(p) => Ok(MemoryRequest::Delete(p.clone())),
        }
    } else {
        let mut out = cat("Unknown action '", action);
        out.append("'. Use view, write, or delete.");
        Err(out)
    }
}

/// The answer with one memory.
pub fn read_answer(path: &str, content: &str) -> (r: String)
    ensures
        r@ == "Memory: "@ + path@ + "\n\n"@ + content@,
{
    let mut out = cat("Memory: ", path);
    out.append("\n\n");
    out.append(content);
    out
}

/// The lines of the list of memories.
pub open spec fn indented(files: Seq<Seq<char>>) -> Seq<Seq<char>> {
    Seq::new(files.len(), |i: int| "  "@ + files[i])
}

/// The answer with the list of memories.
pub open spec fn list_text(files: Seq<Seq<char>>) -> Seq<char> {
    if files.len() == 0 {
        "No memories stored."@
    } else {
        "Memories ("@ + decimal_of(files.len()) + "):\n"@ + join_of(indented(files), "\n"@)
    }
}

/// The answer with the list of memories.
pub fn list_answer(files: &Vec<String>) -> (r: String)
    ensures
        r@ == list_text(texts(files@)),
{
    assert(texts(files@).len() == files@.len());
    if files.len() == 0 {
        return "No memories stored.".to_owned();
    }
    let ghost want = indented(texts(files@));
    let mut rows: Vec<String> = Vec::new();
    let mut i: usize = 0;
    assert(texts(rows@) =~= want.take(0));
    while i < files.len()
        invariant
            i <= files@.len(),
            want == indented(texts(files@)),
            texts(rows@) == want.take(i as int),
        decreases files@.len() - i,
    {
        let ghost before = texts(rows@);
        rows.push(cat("  ", files[i].as_str()));
        assert(texts(rows@) =~= before.push(want[i as int]));
        assert(want.take(i + 1) =~= want.take(i as int).push(want[i as int]));
        i += 1;
    }
    assert(want.take(i as int) =~= want);
    let n = decimal(files.len() as u128);
    let mut out = cat("Memories (", n.as_str());
    out.append("):\n");
    let list = join(&rows, "\n");
    out.append(list.as_str());
    out
}

/// The answer to a memory that was written.
pub fn write_answer(path: &str) -> (r: String)
    ensures
        r@ == "Written memory: "@ + path@,
{
    cat("Written memory: ", path)
}

/// The answer to a memory that was deleted.
pub fn delete_answer(path: &str) -> (r: String)
    ensures
        r@ == "Deleted memory: "@ + path@,
{
    cat("Deleted memory: ", path)
}

/// The list of memories holds every one of them, in their order, behind their number.
pub proof fn law_every_memory_is_listed(files: Seq<Seq<char>>)
    ensures
        files.len() == 0 ==> list_text(files) == "No memories stored."@,
        files.len() > 0 ==> in_order(list_text(files), seq![decimal_of(files.len())] + indented(files)),
        forall|i: int| 0 <= i < files.len() ==> #[trigger] indented(files)[i] == "  "@ + files[i],
        indented(files).len() == files.len(),
{
    if files.len() > 0 {
        let n = decimal_of(files.len());
        let none = Seq::<Seq<char>>::empty();
        law_joining_keeps_the_parts(indented(files), "\n"@);
        lemma_in_order_none("Memories ("@);
        lemma_in_order_next("Memories ("@, none, n);
        lemma_in_order_more("Memories ("@ + n, none.push(n), "):\n"@);
        assert(none.push(n) =~= seq![n]);
        lemma_in_order_concat(
            "Memories ("@ + n + "):\n"@,
            join_of(indented(files), "\n"@),
            seq![n],
            indented(files),
        );
    }
}

/// A request does what the call asks for with what the call gives: only `write` writes, and it
/// writes exactly the given contents to the given path; only `delete` deletes, and only the given
/// path; and nothing is written or deleted without a path.
pub proof fn law_memory_requests_are_as_asked(a: Args)
    ensures
        request_of(a) matches Ok(MemoryRequestView::Write { path, content }) ==> a.action@ == "write"@
            && a.path is Some && path == a.path->0@ && a.content is Some && content == a.content->0@,
        request_of(a) matches Ok(MemoryRequestView::Delete(path)) ==> a.action@ == "delete"@ && a.path is Some
            && path == a.path->0@,
        request_of(a) matches Ok(MemoryRequestView::Read(path)) ==> a.action@ == "view"@ && a.path is Some
            && path == a.path->0@ && path.len() > 0,
        request_of(a) == Ok::<MemoryRequestView, Seq<char>>(MemoryRequestView::List) ==> a.action@ == "view"@
            && (a.path is None || a.path->0@.len() == 0),
        request_of(a) is Ok <==> a.action@ == "view"@ || (a.action@ == "write"@ && a.path is Some
            && a.content is Some) || (a.action@ == "delete"@ && a.path is Some),
{
    reveal_strlit("view");
    reveal_strlit("write");
    reveal_strlit("delete");
    assert("view"@.len() == 4 && "write"@.len() == 5 && "delete"@.len() == 6);
}

} // verus!
