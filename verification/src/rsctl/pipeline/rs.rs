//! The Rust API and OpenAPI pipelines: options, the merging of imported
//! files, and the way from syntax trees to generated files or a document.
use vstd::prelude::*;

use crate::json::Json;
use crate::rsctl::apispec::{opt_view, spec_error_text, validate_view, SpecErrView, SpecError, SpecView};
use crate::rsctl::ast::{self, Ast, AstView, ItemView};
use crate::rsctl::generate::{duplicate_route_text, files_view, generate_project, project_spec, ArtView, Artifacts, GenErr, GenerateError, Templates, TemplatesView};
use crate::rsctl::openapi::{build_openapi, openapi_doc};
use crate::rsctl::pipeline::{
    check_options, extract_root_prefix, extract_root_prefix_text, options_error, prepare_spec, prepared_view,
    root_prefix_in_text, root_prefix_of_ast,
};
use crate::rsctl::semantic::{ast_spec, semantic_error_text, to_spec, SemanticError, SemanticErrorView};
use crate::text::{concat2, owned};

verus! {

/// The options of the Rust API pipeline.
#[derive(Clone, Debug)]
pub struct Options {
    pub out_dir: String,
    pub api_file: String,
    pub style: Option<String>,
    /// Template source: `None` for the default templates, else a local path
    /// or a git/http URL.
    pub remote: Option<String>,
    /// Merge the handlers of a group into one file.
    pub merge: bool,
    /// Run `cargo fmt` after generation.
    pub fmt: bool,
    /// Overwrite existing files.
    pub overwrite: bool,
}

/// The resolved configuration of a run.
#[derive(Clone, Debug)]
pub struct Config {
    pub out_dir: String,
    pub api_file: String,
    pub style: Option<String>,
    /// The template root (expected to hold `api/rs/`).
    pub template_root: String,
    pub merge: bool,
    pub fmt: bool,
    pub overwrite: bool,
}

/// The configuration of a run: the options checked (`--dir` and `--api`
/// given) with the template root that was resolved for them.
pub fn config(opts: Options, template_root: String) -> (r: Result<Config, String>)
    ensures
        match options_error(Some(opts.out_dir@), opts.api_file@) {
            Some(m) => r matches Err(e) && e@ == m,
            None => r matches Ok(c) && c.out_dir == opts.out_dir && c.api_file == opts.api_file && c.style
                == opts.style && c.template_root == template_root && c.merge == opts.merge && c.fmt == opts.fmt
                && c.overwrite == opts.overwrite,
        },
{
    match check_options(Some(opts.out_dir.as_str()), opts.api_file.as_str()) {
        Err(e) => Err(e),
        Ok(()) => Ok(
            Config {
                out_dir: opts.out_dir,
                api_file: opts.api_file,
                style: opts.style,
                template_root,
                merge: opts.merge,
                fmt: opts.fmt,
                overwrite: opts.overwrite,
            },
        ),
    }
}

pub open spec fn all_items(children: Seq<AstView>) -> Seq<ItemView>
    decreases children.len(),
{
    if children.len() == 0 {
        Seq::empty()
    } else {
        all_items(children.drop_last()) + children.last().items
    }
}

/// A file with its imports read in: its own items followed by those of each
/// import in order; the `info` block is kept for the root file only, and no
/// import is left.
pub fn merge_imports(file: Ast, is_root: bool, children: Vec<Ast>) -> (r: Ast)
    ensures
        r@.items == file@.items + all_items(children@.map_values(|c: Ast| c@)),
        r@.imports.len() == 0,
        is_root ==> r@.info == file@.info,
        !is_root ==> r@.info is None,
{
    let ghost cv = children@.map_values(|c: Ast| c@);
    let mut f = file;
    let ghost own = f@.items;
    let mut rest = crate::text::into_reversed(children);
    let n0 = rest.len();
    let ghost n = cv.len();
    let mut k: usize = 0;
    assert(cv.subrange(0, 0) =~= Seq::<AstView>::empty());
    while rest.len() > 0
        invariant
            n == cv.len(),
            n == n0,
            rest@.len() + k == n,
            forall|i: int| 0 <= i < rest@.len() ==> (#[trigger] rest@[i])@ == cv[n - 1 - i],
            f@.items == own + all_items(cv.subrange(0, k as int)),
            f@.info == file@.info,
        decreases rest@.len(),
    {
        let c = rest.pop().unwrap();
        assert(c@ == cv[k as int]);
        let ghost before = f@.items;
        let mut items = c.items;
        f.items.append(&mut items);
        proof {
            assert(cv.subrange(0, k + 1).drop_last() =~= cv.subrange(0, k as int));
            assert(f@.items =~= before + c@.items);
        }
        k = k + 1;
    }
    assert(cv.subrange(0, n as int) =~= cv);
    if !is_root {
        f.info = None;
    }
    f.imports = Vec::new();
    f
}

/// Why a pipeline stops.
#[derive(Clone, Debug)]
pub enum PipelineError {
    Semantic(SemanticError),
    Spec(SpecError),
    Generate(GenerateError),
}

impl PipelineError {
    /// The message of the error, prefixed with the stage that failed.
    pub fn message(&self) -> (s: String)
        ensures
            match self {
                PipelineError::Semantic(e) => s@ == "semantic to spec: "@ + semantic_error_text(e@),
                PipelineError::Spec(e) => s@ == "validate spec: "@ + spec_error_text(*e),
                PipelineError::Generate(GenerateError::Style(m)) => s@ == m@,
                PipelineError::Generate(GenerateError::Render { template, detail }) => s@ == "render "@ + template@
                    + ": "@ + detail@,
                PipelineError::Generate(GenerateError::DuplicateRoute(k)) => s@ == duplicate_route_text(k@),
            },
    {
        match self {
            PipelineError::Semantic(e) => {
                let m = e.message();
                concat2("semantic to spec: ", m.as_str())
            },
            PipelineError::Spec(e) => {
                let m = e.message();
                concat2("validate spec: ", m.as_str())
            },
            PipelineError::Generate(e) => e.message(),
        }
    }
}

pub enum PipelineErrView {
    Semantic(SemanticErrorView),
    Spec(SpecErrView),
    Generate(GenErr),
}

impl View for PipelineError {
    type V = PipelineErrView;

    open spec fn view(&self) -> PipelineErrView {
        match self {
            PipelineError::Semantic(e) => PipelineErrView::Semantic(e@),
            PipelineError::Spec(e) => PipelineErrView::Spec(e@),
            PipelineError::Generate(e) => PipelineErrView::Generate(e@),
        }
    }
}

/// The root prefix of a file: from its parsed `info` block, else found in
/// its text.
pub open spec fn root_prefix_choice(root: AstView, text: Option<Seq<char>>) -> Option<Seq<char>> {
    match root_prefix_of_ast(root) {
        Some(p) => Some(p),
        None => match text {
            Some(t) => root_prefix_in_text(t),
            None => None,
        },
    }
}

/// The description the pipelines generate from: the merged tree turned into
/// a spec, given the root file's prefix and the fallback service name, and
/// validated.
pub open spec fn checked_spec(merged: AstView, root: AstView, text: Option<Seq<char>>, stem: Option<Seq<char>>) -> Result<
    SpecView,
    PipelineErrView,
> {
    match ast_spec(merged) {
        Err(e) => Err(PipelineErrView::Semantic(e)),
        Ok(v) => {
            let pv = prepared_view(v, stem, root_prefix_choice(root, text));
            match validate_view(pv) {
                Err(e) => Err(PipelineErrView::Spec(e)),
                Ok(_) => Ok(pv),
            }
        },
    }
}

/// The files of the Rust pipeline: the project generated for the checked
/// spec, named after its service, under its root prefix, in `style`
/// (`rust_zero` when none is given).
pub open spec fn rs_files(
    merged: AstView,
    root: AstView,
    text: Option<Seq<char>>,
    stem: Option<Seq<char>>,
    style: Option<Seq<char>>,
    merge: bool,
    templates: TemplatesView,
    version: Seq<char>,
) -> Result<Seq<ArtView>, PipelineErrView> {
    match checked_spec(merged, root, text, stem) {
        Err(e) => Err(e),
        Ok(pv) => match project_spec(
            pv,
            pv.service_name,
            merge,
            match style {
                Some(s) => s,
                None => "rust_zero"@,
            },
            templates,
            version,
            pv.info.root_prefix,
        ) {
            Ok(f) => Ok(f),
            Err(e) => Err(PipelineErrView::Generate(e)),
        },
    }
}

/// The checked spec of a merged tree (see [`checked_spec`]).
pub fn check_spec(merged: &Ast, root: &Ast, root_text: Option<&str>, file_stem: Option<String>) -> (r: Result<crate::rsctl::apispec::Spec, PipelineError>)
    ensures
        match r {
            Ok(s) => checked_spec(merged@, root@, match root_text { Some(t) => Some(t@), None => None }, opt_view(file_stem))
                == Ok::<SpecView, PipelineErrView>(s@),
            Err(e) => checked_spec(merged@, root@, match root_text { Some(t) => Some(t@), None => None }, opt_view(file_stem))
                == Err::<SpecView, PipelineErrView>(e@),
        },
{
    let spec = match to_spec(merged) {
        Ok(s) => s,
        Err(e) => {
            return Err(PipelineError::Semantic(e));
        },
    };
    let root_prefix = match extract_root_prefix(root) {
        Some(p) => Some(p),
        None => match root_text {
            Some(t) => extract_root_prefix_text(t),
            None => None,
        },
    };
    match prepare_spec(spec, file_stem, root_prefix) {
        Ok(s) => Ok(s),
        Err(e) => Err(PipelineError::Spec(e)),
    }
}

/// The files that the Rust pipeline writes (see [`rs_files`]).
pub fn project_artifacts(
    merged: &Ast,
    root: &Ast,
    root_text: Option<&str>,
    file_stem: Option<String>,
    style: Option<String>,
    merge: bool,
    templates: Templates,
    version: &str,
) -> (r: Result<Artifacts, PipelineError>)
    ensures
        match r {
            Ok(a) => rs_files(merged@, root@, match root_text { Some(t) => Some(t@), None => None }, opt_view(file_stem),
                opt_view(style), merge, templates@, version@) == Ok::<Seq<ArtView>, PipelineErrView>(files_view(a.files@)),
            Err(e) => rs_files(merged@, root@, match root_text { Some(t) => Some(t@), None => None }, opt_view(file_stem),
                opt_view(style), merge, templates@, version@) == Err::<Seq<ArtView>, PipelineErrView>(e@),
        },
{
    let spec = match check_spec(merged, root, root_text, file_stem) {
        Ok(s) => s,
        Err(e) => {
            return Err(e);
        },
    };
    let st = match style {
        Some(s) => s,
        None => owned("rust_zero"),
    };
    match generate_project(
        &spec,
        spec.service.name.as_str(),
        merge,
        st.as_str(),
        templates,
        version,
        spec.info.root_prefix.as_str(),
    ) {
        Ok(a) => Ok(a),
        Err(e) => Err(PipelineError::Generate(e)),
    }
}

/// The OpenAPI document of the checked spec.
pub fn openapi_document(merged: &Ast, root: &Ast, root_text: Option<&str>, file_stem: Option<String>) -> (r: Result<Json, PipelineError>)
    ensures
        match checked_spec(merged@, root@, match root_text { Some(t) => Some(t@), None => None }, opt_view(file_stem)) {
            Ok(v) => r matches Ok(j) && j@ == openapi_doc(v),
            Err(e) => r matches Err(x) && x@ == e,
        },
{
    match check_spec(merged, root, root_text, file_stem) {
        Ok(s) => Ok(build_openapi(&s)),
        Err(e) => Err(e),
    }
}

} // verus!
