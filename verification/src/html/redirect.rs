//! The HTML redirect page: a plain page with a meta refresh tag, built as
//! one string whose exact contents are stated piece by piece.

use vstd::prelude::*;
use vstd::string::StringExecFns;

verus! {

/// Configuration for the HTML redirect page.
pub struct HtmlRedirectConfig<'a> {
    /// Title of the HTML page.
    pub title: &'a str,
    /// Seconds after which to refresh the page; three by default.
    pub time: Option<u8>,
    /// The URL to redirect to.
    pub url: &'a str,
    /// Whether to present the message as a success.
    pub success: bool,
    /// The icon to display; a check or a cross by default.
    pub icon: Option<&'a str>,
    /// An optional message to display.
    pub message: &'a str,
}

impl<'a> Default for HtmlRedirectConfig<'a> {
    /// The default page: straight to the root, as a success, with the
    /// default delay and icon.
    fn default() -> (r: Self)
        ensures
            r.title@ == "Redirecting"@,
            r.time is None,
            r.url@ == "/"@,
            r.success,
            r.icon is None,
            r.message@ == ""@,
    {
        Self { title: "Redirecting", time: None, url: "/", success: true, icon: None, message: "" }
    }
}

/// The decimal digit `d` as a character.
pub open spec fn digit_char(d: nat) -> char {
    if d == 0 {
        '0'
    } else if d == 1 {
        '1'
    } else if d == 2 {
        '2'
    } else if d == 3 {
        '3'
    } else if d == 4 {
        '4'
    } else if d == 5 {
        '5'
    } else if d == 6 {
        '6'
    } else if d == 7 {
        '7'
    } else if d == 8 {
        '8'
    } else {
        '9'
    }
}

/// The decimal digits of `n` as characters, most significant first.
pub open spec fn spec_dec_chars(n: nat) -> Seq<char>
    decreases n,
{
    if n < 10 {
        seq![digit_char(n)]
    } else {
        spec_dec_chars(n / 10).push(digit_char(n % 10))
    }
}

/// The decimal digit `d` as a one-character string.
fn digit_str(d: u8) -> (r: &'static str)
    requires
        d < 10,
    ensures
        r@ =~= seq![digit_char(d as nat)],
{
    if d == 0 {
        proof {
            reveal_strlit("0");
        }
        "0"
    } else if d == 1 {
        proof {
            reveal_strlit("1");
        }
        "1"
    } else if d == 2 {
        proof {
            reveal_strlit("2");
        }
        "2"
    } else if d == 3 {
        proof {
            reveal_strlit("3");
        }
        "3"
    } else if d == 4 {
        proof {
            reveal_strlit("4");
        }
        "4"
    } else if d == 5 {
        proof {
            reveal_strlit("5");
        }
        "5"
    } else if d == 6 {
        proof {
            reveal_strlit("6");
        }
        "6"
    } else if d == 7 {
        proof {
            reveal_strlit("7");
        }
        "7"
    } else if d == 8 {
        proof {
            reveal_strlit("8");
        }
        "8"
    } else {
        proof {
            reveal_strlit("9");
        }
        "9"
    }
}

/// Append the decimal digits of `n`.
fn append_dec(out: &mut String, n: u8)
    ensures
        final(out)@ == old(out)@ + spec_dec_chars(n as nat),
    decreases n,
{
    if n < 10 {
        out.append(digit_str(n));
        assert(final(out)@ =~= old(out)@ + spec_dec_chars(n as nat));
    } else {
        append_dec(out, n / 10);
        out.append(digit_str(n % 10));
        assert(final(out)@ =~= old(out)@ + spec_dec_chars(n as nat));
    }
}

/// The refresh delay of the page: the configured seconds, or three.
pub open spec fn spec_redirect_time(time: Option<u8>) -> u8 {
    match time {
        Some(t) => t,
        None => 3,
    }
}

/// The status class of the page.
pub open spec fn spec_redirect_status(success: bool) -> Seq<char> {
    if success {
        "success"@
    } else {
        "error"@
    }
}

/// The icon of the page: the configured one, or a check for success and a
/// cross for an error.
pub open spec fn spec_redirect_icon(icon: Option<Seq<char>>, success: bool) -> Seq<char> {
    match icon {
        Some(i) => i,
        None => if success {
            "✓"@
        } else {
            "✕"@
        },
    }
}

/// The full text of the redirect page, from its six interpolated pieces.
pub open spec fn spec_html_redirect(
    title: Seq<char>,
    time: Seq<char>,
    url: Seq<char>,
    status: Seq<char>,
    icon: Seq<char>,
    message: Seq<char>,
) -> Seq<char> {
    "<!DOCTYPE html>\n<html lang=\"en\">\n<head>\n<meta charset=\"UTF-8\">\n<meta name=\"viewport\" content=\"width=device-width, initial-scale=1.0\">\n<meta http-equiv=\"refresh\" content=\""@
        + time + ";url="@ + url + "\">\n<title>"@ + title
        + "</title>\n<link rel=\"stylesheet\" href=\"/_assets/reset.css\">\n<link rel=\"stylesheet\" href=\"/_assets/redirect.css\">\n<style>\n\t.redirect-progress::after {\n\t\tanimation: progress "@
        + time
        + "s linear forwards;\n\t}\n</style>\n</head>\n<body>\n<div class=\"circles\">\n\t<div class=\"circle circle-1\"></div>\n\t<div class=\"circle circle-2\"></div>\n</div>\n\n<main class=\"redirect-container\">\n\t<div class=\"redirect-card\">\n\t\t<div class=\"status-message "@
        + status + "\">\n\t\t\t<div class=\"status-icon\">"@ + icon + "</div>\n\t\t\t<h1>"@ + title
        + "</h1>\n\t\t\t<p>"@ + message
        + "</p>\n\t\t</div>\n\n\t\t<div class=\"redirect-progress\"></div>\n\n\t\t<a autofocus href=\""@
        + url
        + "\" class=\"redirect-link\">Continue</a>\n\n\t\t<div class=\"redirect-footer\">\n\t\t\tRedirecting automatically in "@
        + time + " seconds...\n\t\t</div>\n\t</div>\n</main>\n</body>\n</html>"@
}

/// Generate the HTML redirect page for `config`: exactly the page template
/// with the title, delay, URL, status class, icon and message filled in.
pub fn gen_html_redirect(config: HtmlRedirectConfig) -> (r: String)
    ensures
        r@ == spec_html_redirect(
            config.title@,
            spec_dec_chars(spec_redirect_time(config.time) as nat),
            config.url@,
            spec_redirect_status(config.success),
            spec_redirect_icon(
                match config.icon {
                    Some(i) => Some(i@),
                    None => None,
                },
                config.success,
            ),
            config.message@,
        ),
{
    let time: u8 = match config.time {
        Some(t) => t,
        None => 3,
    };
    let icon: &str = match config.icon {
        Some(i) => i,
        None => if config.success {
            "✓"
        } else {
            "✕"
        },
    };
    let status: &str = if config.success {
        "success"
    } else {
        "error"
    };
    let mut out = String::new();
    out.append(
        "<!DOCTYPE html>\n<html lang=\"en\">\n<head>\n<meta charset=\"UTF-8\">\n<meta name=\"viewport\" content=\"width=device-width, initial-scale=1.0\">\n<meta http-equiv=\"refresh\" content=\"",
    );
    append_dec(&mut out, time);
    out.append(";url=");
    out.append(config.url);
    out.append("\">\n<title>");
    out.append(config.title);
    out.append(
        "</title>\n<link rel=\"stylesheet\" href=\"/_assets/reset.css\">\n<link rel=\"stylesheet\" href=\"/_assets/redirect.css\">\n<style>\n\t.redirect-progress::after {\n\t\tanimation: progress ",
    );
    append_dec(&mut out, time);
    out.append(
        "s linear forwards;\n\t}\n</style>\n</head>\n<body>\n<div class=\"circles\">\n\t<div class=\"circle circle-1\"></div>\n\t<div class=\"circle circle-2\"></div>\n</div>\n\n<main class=\"redirect-container\">\n\t<div class=\"redirect-card\">\n\t\t<div class=\"status-message ",
    );
    out.append(status);
    out.append("\">\n\t\t\t<div class=\"status-icon\">");
    out.append(icon);
    out.append("</div>\n\t\t\t<h1>");
    out.append(config.title);
    out.append("</h1>\n\t\t\t<p>");
    out.append(config.message);
    out.append(
        "</p>\n\t\t</div>\n\n\t\t<div class=\"redirect-progress\"></div>\n\n\t\t<a autofocus href=\"",
    );
    out.append(config.url);
    out.append(
        "\" class=\"redirect-link\">Continue</a>\n\n\t\t<div class=\"redirect-footer\">\n\t\t\tRedirecting automatically in ",
    );
    append_dec(&mut out, time);
    out.append(" seconds...\n\t\t</div>\n\t</div>\n</main>\n</body>\n</html>");
    out
}

} // verus!
