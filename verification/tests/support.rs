use akita::config::Config;
use akita::dto::ListItem;
use akita::interpreter::FlagRes;
use akita::url::Url;

#[test]
fn url_defaults_to_https_scheme_choice() {
    let url = Url::new();
    assert_eq!(url.base(), "");
    assert_eq!(url.get(), "http://");
}

#[test]
fn url_from_str_keeps_explicit_scheme() {
    let url = Url::from_str("https://del.dog");
    assert_eq!(url.get(), "https://del.dog");
    assert_eq!(url.base(), "https://del.dog");
}

#[test]
fn url_prepends_scheme_when_base_has_none() {
    // the stored choice is inverted when rendered: a base string without
    // "https" in it leaves the choice off, which renders as "https"
    let url = Url::from_str("del.dog");
    assert_eq!(url.get(), "https://del.dog");
    let url = Url::from_str("del.dog").set_http();
    assert_eq!(url.get(), "https://del.dog");
}

#[test]
fn url_export_line() {
    let url = Url::from_str("del.dog");
    assert_eq!(url.export(), "provider = del.dog\n");
}

#[test]
fn url_set_base_keeps_scheme_choice() {
    let mut url = Url::new();
    url.set_base("del.dog");
    assert_eq!(url.base(), "del.dog");
    assert_eq!(url.get(), "http://del.dog");
}

#[test]
fn config_render_without_creds() {
    let mut conf = Config::new();
    conf.provider.set_base("del.dog");
    assert_eq!(conf.render(), "provider = del.dog\n");
}

#[test]
fn config_render_with_creds() {
    let mut conf = Config::new();
    conf.provider.set_base("del.dog");
    conf.creds = Some("SECRET-REDACTED".to_string());
    assert_eq!(conf.render(), "provider = del.dog\ncreds = SECRET-REDACTED\n");
}

#[test]
fn flag_res_val_returns_stored_value() {
    let res = FlagRes::Input("hello".to_string());
    assert_eq!(res.val(), "hello");
}

#[test]
fn list_item_render() {
    let item = ListItem {
        slug: "mydoc".to_string(),
        created: "2020-01-01".to_string(),
        doctype: "paste".to_string(),
    };
    assert_eq!(item.render(), "mydoc (paste)\ncreated: 2020-01-01\n");
}
