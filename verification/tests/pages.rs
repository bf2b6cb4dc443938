use simple_file_store::config::UserConfig;
use simple_file_store::html::redirect::{gen_html_redirect, HtmlRedirectConfig};
use simple_file_store::templates::Redirect;

#[test]
fn redirect_page_defaults() {
    let page = gen_html_redirect(HtmlRedirectConfig::default());
    assert!(page.starts_with("<!DOCTYPE html>"));
    assert!(page.ends_with("</html>"));
    assert!(page.contains("content=\"3;url=/\""));
    assert!(page.contains("animation: progress 3s linear forwards;"));
    assert!(page.contains("status-message success"));
    assert!(page.contains("<div class=\"status-icon\">\u{2713}</div>"));
    assert!(page.contains("<h1>Redirecting</h1>"));
    assert!(page.contains("<p></p>"));
    assert!(page.contains("<a autofocus href=\"/\" class=\"redirect-link\">Continue</a>"));
    assert!(page.contains("Redirecting automatically in 3 seconds..."));
}

#[test]
fn redirect_page_interpolates_every_field() {
    let page = gen_html_redirect(HtmlRedirectConfig {
        title: "Login Failed",
        time: Some(10),
        url: "/login?redirect=%2Ffiles",
        success: false,
        icon: Some("!"),
        message: "Incorrect username or password.",
    });
    assert!(page.contains("content=\"10;url=/login?redirect=%2Ffiles\""));
    assert!(page.contains("animation: progress 10s linear forwards;"));
    assert!(page.contains("status-message error"));
    assert!(page.contains("<div class=\"status-icon\">!</div>"));
    assert!(page.contains("<h1>Login Failed</h1>"));
    assert!(page.contains("<p>Incorrect username or password.</p>"));
    assert!(page.contains("Redirecting automatically in 10 seconds..."));
}

#[test]
fn redirect_page_error_icon_default() {
    let page = gen_html_redirect(HtmlRedirectConfig {
        success: false,
        ..Default::default()
    });
    assert!(page.contains("status-message error"));
    assert!(page.contains("<div class=\"status-icon\">\u{2715}</div>"));
}

#[test]
fn redirect_template_defaults() {
    let r = Redirect::default();
    assert_eq!(r.title, "Redirecting");
    assert_eq!(r.time, None);
    assert_eq!(r.url, "/");
    assert!(r.success);
    assert_eq!(r.icon, None);
    assert_eq!(r.message, "");
}

#[test]
fn cli_config_overrides_environment() {
    let env_config = UserConfig {
        listen: Some("[::]:8080".to_string()),
        store_path: Some("/srv/files".to_string()),
        chunk_size: Some("1024".to_string()),
        ..Default::default()
    };
    let cli_config = UserConfig {
        chunk_size: Some("4096".to_string()),
        username: Some("admin".to_string()),
        ..Default::default()
    };
    let merged = UserConfig::from_env_and_cli(env_config, cli_config);
    assert_eq!(merged.listen.as_deref(), Some("[::]:8080"));
    assert_eq!(merged.store_path.as_deref(), Some("/srv/files"));
    assert_eq!(merged.chunk_size.as_deref(), Some("4096"));
    assert_eq!(merged.username.as_deref(), Some("admin"));
    assert_eq!(merged.password, None);
    assert_eq!(merged.secret, None);
    assert_eq!(merged.token_expiry, None);
    assert_eq!(merged.tls_cert, None);
    assert_eq!(merged.tls_key, None);
}
