use halo::json::Json;
use halo::rsctl::apispec::{Tags, Type};
use halo::rsctl::ast::Item;
use halo::rsctl::cli::api::{ApiRsArgs, Command as ApiCommand};
use halo::rsctl::cli::rs::api::{ApiArgs, GenerateArgs};
use halo::rsctl::cli::template::{install_step, InstallStep, Template};
use halo::rsctl::cli::{run, Action, App, Command};
use halo::rsctl::generate::Templates;
use halo::rsctl::naming::{
    group_file_base, join_http_paths, lower_camel_from_snake, mod_decl_with_path, parse_style, pascal, snake,
    type_to_rust, validate_tag_to_attrs, Style,
};
use halo::rsctl::openapi::yaml_top_members;
use halo::rsctl::parser::parse;
use halo::rsctl::pipeline::rs::{config, merge_imports, openapi_document, project_artifacts, Options};
use halo::rsctl::pipeline::{check_options, extract_root_prefix_text, output_file_name};
use halo::rsctl::semantic::to_spec;
use halo::rsctl::semantic::SemanticError;
use halo::rsctl::apispec::SpecError;
use halo::rsctl::generate::GenerateError;
use halo::rsctl::pipeline::rs::PipelineError;

fn member<'a>(j: &'a Json, key: &str) -> Option<&'a Json> {
    match j {
        Json::Obj(ms) => ms.iter().find(|(k, _)| k == key).map(|(_, v)| v),
        _ => None,
    }
}

const SAMPLE: &str = r#"
// 空内容
@server()

@doc "foo"

get /ping

@server (
  prefix: /v1
  group: Foo
)
service user {
  @doc "登录"
  @handler login
  post /user/login (LoginReq) returns (LoginResp)

  @handler getUserInfo
  get /user/info/:id (GetUserInfoReq) returns (GetUserInfoResp)
}
"#;

#[test]
fn parse_sample_should_work() {
    let ast = parse(SAMPLE).unwrap();
    assert!(!ast.items.is_empty());
}

#[test]
fn parse_type_group_should_work() {
    let input = r#"
syntax = "v1"

type (
  LoginReq {
    Username string `json:"username"`
    Password string `json:"password"`
  }
  LoginResp {
    Id int64 `json:"id"`
  }
)

@server (group: login prefix: /v1)
service user {
  @handler login
  post /user/login (LoginReq) returns (LoginResp)
}
"#;
    let ast = parse(input).unwrap();
    let types = ast.items.iter().filter(|it| matches!(it, Item::Type(_))).count();
    assert_eq!(types, 2);
}

#[test]
fn parse_reports_position_of_error() {
    let err = parse("service user {\n  get\n").err().unwrap();
    assert!(err.pos > 0);
}

#[test]
fn should_generate_openapi_with_root_and_prefix() {
    let api_content = r#"
syntax = "v1"
info (
  root_prefix: "/api"
)
@server ( prefix: /api )
service user {
  @handler hello
  get /hello
}
"#;
    let ast = parse(api_content).unwrap();
    let doc = openapi_document(&ast, &ast, Some(api_content), Some("api".to_string())).unwrap();
    let paths = member(&doc, "paths").unwrap();
    let op = member(paths, "/api/api/hello").expect("expected /api/api/hello");
    let get = member(op, "get").unwrap();
    assert_eq!(member(get, "operationId"), Some(&Json::Str("hello".to_string())));
    assert_eq!(output_file_name("openapi", "json"), "openapi.json");
    assert_eq!(output_file_name("", "YAML"), "openapi.yaml");
}

#[test]
fn root_prefix_from_text() {
    assert_eq!(extract_root_prefix_text("info (\n ROOT_PREFIX: \"api\"\n)"), Some("/api".to_string()));
    assert_eq!(extract_root_prefix_text("info ( root_prefix: v2 )"), Some("/v2".to_string()));
    assert_eq!(extract_root_prefix_text("nothing here"), None);
}

#[test]
fn semantic_to_spec_groups_routes() {
    let ast = parse(SAMPLE).unwrap();
    let spec = to_spec(&ast).unwrap();
    assert_eq!(spec.service.name, "user");
    assert!(!spec.service.groups.is_empty());
}

#[test]
fn imports_are_merged_after_own_items() {
    let root = parse("info ( title: \"t\" )\nget /a").unwrap();
    let child = parse("info ( title: \"c\" )\nget /b").unwrap();
    let merged = merge_imports(root.clone(), true, vec![child.clone()]);
    assert_eq!(merged.items.len(), root.items.len() + child.items.len());
    assert!(merged.info.is_some());
    assert!(merged.imports.is_empty());
    let child_merged = merge_imports(child, false, vec![]);
    assert!(child_merged.info.is_none());
}

fn simple_templates() -> Templates {
    Templates {
        cargo_toml: "name={{ serviceName }}".to_string(),
        context: "ctx".to_string(),
        etc: "etc".to_string(),
        main: "main".to_string(),
        config: "config".to_string(),
        routes: "routes".to_string(),
        handler: "handler".to_string(),
        logic: "logic".to_string(),
        types: "types".to_string(),
        middleware: "middleware".to_string(),
    }
}

#[test]
fn project_is_generated_from_templates() {
    let src = "service user {\n  @handler ping\n  get /ping\n}";
    let ast = parse(src).unwrap();
    let arts = project_artifacts(&ast, &ast, Some(src), Some("user".to_string()), None, true, simple_templates(), "1.0.0")
        .unwrap();
    assert!(!arts.files.is_empty());
    let cargo = arts.files.iter().find(|f| f.rel_path == "Cargo.toml").unwrap();
    assert_eq!(cargo.content, "name=user");
}

#[test]
fn project_with_unknown_style_fails() {
    let src = "service user {\n  @handler ping\n  get /ping\n}";
    let ast = parse(src).unwrap();
    let r = project_artifacts(&ast, &ast, Some(src), None, Some("kebab".to_string()), true, simple_templates(), "1");
    assert!(r.is_err());
}

#[test]
fn project_without_handler_fails_validation() {
    let src = "service user {\n  get /ping\n}";
    let ast = parse(src);
    if let Ok(ast) = ast {
        let r = project_artifacts(&ast, &ast, Some(src), None, None, true, simple_templates(), "1");
        assert!(r.is_err());
    }
}

#[test]
fn naming_rules() {
    assert_eq!(parse_style("rust_zero"), Ok(Style::Snake));
    assert_eq!(parse_style("rustZero"), Ok(Style::LowerCamel));
    assert_eq!(parse_style("RustZero"), Ok(Style::UpperCamel));
    assert!(parse_style("x").is_err());
    assert_eq!(snake("  UserAPI "), "userapi");
    assert_eq!(pascal("user_info-list"), "UserInfoList");
    assert_eq!(lower_camel_from_snake("user_info"), "userInfo");
    assert_eq!(lower_camel_from_snake(""), "");
    assert_eq!(group_file_base("user_info", Style::UpperCamel), "UserInfo");
    assert_eq!(mod_decl_with_path("handler", "user", "user"), "pub mod user;\n");
    assert_eq!(
        mod_decl_with_path("handler", "user_info", "userInfo"),
        "#[path = \"handler/userInfo.rs\"]\npub mod user_info;\n"
    );
    assert_eq!(join_http_paths("/v1/", "x"), "/v1/x");
    assert_eq!(join_http_paths("", "x"), "/x");
    assert_eq!(join_http_paths("/v1", "/"), "/v1");
}

#[test]
fn types_map_to_rust() {
    assert_eq!(type_to_rust("", &Type::Primitive("int64".to_string())), "i64");
    assert_eq!(type_to_rust("", &Type::Ident("User".to_string())), "crate::types::User");
    assert_eq!(type_to_rust("g", &Type::Ident("User".to_string())), "crate::types::g::types::User");
    assert_eq!(
        type_to_rust("", &Type::Array(Box::new(Type::Primitive("string".to_string())))),
        "Vec<String>"
    );
    assert_eq!(
        type_to_rust(
            "",
            &Type::MapType {
                key: Box::new(Type::Primitive("string".to_string())),
                value: Box::new(Type::Any)
            }
        ),
        "std::collections::BTreeMap<String, serde_json::Value>"
    );
}

#[test]
fn validate_tags_become_attributes() {
    assert_eq!(
        validate_tag_to_attrs("String", "required, min=1,max=10,email"),
        vec![
            "#[validate(required)]".to_string(),
            "#[validate(email)]".to_string(),
            "#[validate(length(min = 1, max = 10))]".to_string()
        ]
    );
    assert_eq!(validate_tag_to_attrs("i64", "min=0,max=5"), vec!["#[validate(range(min = 0, max = 5))]".to_string()]);
    assert_eq!(validate_tag_to_attrs("String", "min=0"), Vec::<String>::new());
}

#[test]
fn tags_are_read_in_order() {
    let t = Tags::parse("json:\"name,omitempty\" form:\"n\"");
    let j = t.get("json").unwrap();
    assert_eq!(j.name, "name");
    assert_eq!(j.options, vec!["omitempty".to_string()]);
    assert_eq!(t.get("form").unwrap().name, "n");
    assert!(t.get("xml").is_none());
}

#[test]
fn cli_dispatch() {
    let app = App { version: true, command: None };
    assert!(matches!(run(app), Ok(Action::PrintVersion)));
    assert!(matches!(run(App { version: false, command: None }), Ok(Action::PrintHelp)));
    let update = App { version: false, command: Some(Command::Template { template: Template::Update }) };
    assert!(matches!(run(update), Ok(Action::TemplateInit { overwrite: true })));
    let args = ApiRsArgs {
        dir: ".".to_string(),
        api: "a.api".to_string(),
        style: None,
        remote: None,
        merge: true,
        fmt: false,
        overwrite: false,
    };
    match run(App { version: false, command: Some(Command::Api { api: ApiCommand::Rs(args) }) }) {
        Ok(Action::GenerateRs(o)) => {
            assert_eq!(o.api_file, "a.api");
            assert_eq!(o.out_dir, ".");
            assert!(o.merge);
        }
        other => panic!("unexpected: {:?}", other),
    }
    let missing = ApiArgs {
        command: None,
        generate: GenerateArgs {
            dir: ".".to_string(),
            api: None,
            style: None,
            remote: None,
            merge: true,
            fmt: true,
            overwrite: false,
        },
    };
    assert_eq!(halo::rsctl::cli::rs::api::run(missing).err().unwrap(), "--api is required");
}

#[test]
fn pipeline_options_are_checked() {
    assert_eq!(check_options(Some(""), "a.api").unwrap_err(), "--dir is required");
    assert_eq!(check_options(Some("."), "").unwrap_err(), "--api is required");
    assert!(check_options(None, "a.api").is_ok());
    let opts = Options {
        out_dir: "out".to_string(),
        api_file: "a.api".to_string(),
        style: None,
        remote: None,
        merge: true,
        fmt: true,
        overwrite: false,
    };
    let c = config(opts, "tpl".to_string()).unwrap();
    assert_eq!(c.template_root, "tpl");
    assert_eq!(c.out_dir, "out");
    let go = halo::rsctl::pipeline::go::run(halo::rsctl::pipeline::go::Options {
        out_dir: ".".to_string(),
        api_file: "a".to_string(),
        style: None,
        remote: None,
        overwrite: false,
        web: "gin".to_string(),
    });
    assert!(go.unwrap_err().starts_with("go api generator is not implemented yet"));
}

#[test]
fn semantic_errors() {
    let ast = parse("service a {\n  @handler x\n  get /x\n}\nservice b {\n  @handler y\n  get /y\n}").unwrap();
    match to_spec(&ast) {
        Err(SemanticError::ServiceNameMismatch { expected, found }) => {
            assert_eq!(expected, "a");
            assert_eq!(found, "b");
        }
        other => panic!("unexpected: {:?}", other.map(|_| ())),
    }
}

#[test]
fn spec_errors() {
    let src = "service user {\n  @handler ping\n  get /ping\n}";
    let spec = to_spec(&parse(src).unwrap()).unwrap();
    assert!(spec.validate().is_ok());
    let mut nameless = spec.clone();
    nameless.service.name = "  ".to_string();
    assert_eq!(nameless.validate(), Err(SpecError::MissingServiceName));
    let mut empty = spec.clone();
    empty.service.groups.clear();
    assert_eq!(empty.validate(), Err(SpecError::MissingGroups));
    let mut no_handler = spec;
    no_handler.service.groups[0].routes[0].handler = " ".to_string();
    assert_eq!(no_handler.validate(), Err(SpecError::MissingHandler("/ping".to_string())));
    assert_eq!(
        SpecError::MissingHandler("/ping".to_string()).message(),
        "missing handler name for route: \"/ping\""
    );
}

#[test]
fn duplicate_routes_are_refused() {
    let src = "@server (group: a)\nservice user {\n  @handler one\n  get /x\n}\n@server (group: b)\nservice user {\n  @handler two\n  get /x\n}";
    let ast = parse(src).unwrap();
    match project_artifacts(&ast, &ast, Some(src), None, None, true, simple_templates(), "1") {
        Err(PipelineError::Generate(GenerateError::DuplicateRoute(k))) => {
            assert_eq!(k, "GET /x");
        }
        Err(e) => panic!("unexpected error: {}", e.message()),
        Ok(_) => panic!("expected an error"),
    }
}

#[test]
fn render_errors_name_the_template() {
    let src = "service user {\n  @handler ping\n  get /ping\n}";
    let ast = parse(src).unwrap();
    let mut t = simple_templates();
    t.etc = "{% if %}".to_string();
    match project_artifacts(&ast, &ast, Some(src), None, None, true, t, "1") {
        Err(PipelineError::Generate(GenerateError::Render { template, .. })) => {
            assert_eq!(template, "etc.tpl");
        }
        Err(e) => panic!("unexpected error: {}", e.message()),
        Ok(_) => panic!("expected an error"),
    }
}

#[test]
fn case_mapping_covers_unicode() {
    assert_eq!(pascal("éclair_tart"), "ÉclairTart");
    assert_eq!(lower_camel_from_snake("Éclair"), "éclair");
}

#[test]
fn template_install_steps() {
    use_install_step();
}

fn use_install_step() {
    assert_eq!(install_step(true, false), InstallStep::KeepExisting);
    assert_eq!(install_step(true, true), InstallStep::ReplaceExisting);
    assert_eq!(install_step(false, true), InstallStep::Install);
    assert_eq!(install_step(false, false), InstallStep::Install);
}

#[test]
fn pascal_and_group_file_names_on_ascii() {
    assert_eq!(pascal("get_user-info"), "GetUserInfo");
    assert_eq!(pascal("__a__b"), "AB");
    assert_eq!(pascal("getUser"), "GetUser");
    assert_eq!(pascal(""), "");
    assert_eq!(group_file_base("user_info", Style::Snake), "user_info");
    assert_eq!(group_file_base("user_info", Style::LowerCamel), "userInfo");
    assert_eq!(group_file_base("user_info", Style::UpperCamel), "UserInfo");
}

#[test]
fn yaml_top_members_orders_document_keys() {
    let doc = Json::Obj(vec![
        ("components".to_string(), Json::Obj(vec![])),
        ("openapi".to_string(), Json::Str("3.0.1".to_string())),
        ("info".to_string(), Json::Obj(vec![("title".to_string(), Json::Str("t".to_string()))])),
    ]);
    let top = yaml_top_members(&doc);
    let keys: Vec<&str> = top.iter().map(|(k, _)| k.as_str()).collect();
    assert_eq!(keys, vec!["openapi", "info", "paths", "components"]);
    assert!(matches!(&top[0].1, Json::Str(s) if s == "3.0.1"));
    assert!(matches!(member(&top[1].1, "title"), Some(Json::Str(s)) if s == "t"));
    assert!(matches!(top[2].1, Json::Null));
    assert!(matches!(&top[3].1, Json::Obj(ms) if ms.is_empty()));
}
