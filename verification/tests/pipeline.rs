use amclaw::json::{get, get_str, JsonValue};
use amclaw::logging::build_structured_log_payload;
use amclaw::pipeline::archive::{
    render_browser_archive, render_http_archive, render_manual_archive,
};
use amclaw::pipeline::capture::{
    validate_browser_capture_paths, BrowserCaptureRequest, BrowserCaptureResponse,
    BrowserCaptureResult,
};
use amclaw::pipeline::fetch::{
    detect_wechat_error_page, detect_wechat_redirect, should_disable_http_redirects,
    should_prefer_browser_capture, should_reject_http_redirect_target, validate_fetched_html,
};
use amclaw::pipeline::html_extract::{
    classify_http_page_kind, extract_html_title, extract_http_archive_body, extract_primary_body,
    generate_rule_summary, is_navigation_like,
};
use amclaw::pipeline::markdown::{
    decode_entities_in_text, html_fragment_to_markdown, replace_pre_blocks,
    restore_code_placeholders, strip_html_tags,
};
use amclaw::pipeline::outcome::{HttpFetchResult, PipelineFailureKind};
use amclaw::task_store::url_guard::IpAddress;
use amclaw::task_store::{PendingTaskRecord, TaskContentRecord};

fn unresolved(_: &str) -> Vec<IpAddress> {
    vec![]
}

#[test]
fn http_archive_extracts_generic_article_body() {
    let html = r#"
<html>
  <head>
    <title>通用文章标题</title>
    <meta property="og:type" content="article" />
  </head>
  <body>
    <nav>导航</nav>
    <article>
      <h1>通用文章标题</h1>
      <p>第一段正文，包含足够的信息用于形成可读归档。</p>
      <p><a href="https://example.com/ref">相关阅读</a></p>
      <img src="https://example.com/image.png" />
    </article>
  </body>
</html>
"#;

    let body = extract_http_archive_body(html);

    assert_eq!(body.page_kind, "article");
    assert_eq!(body.section_title, "Content");
    assert!(body.markdown.contains("第一段正文"));
    assert!(body.markdown.contains("相关阅读 (https://example.com/ref)"));
    assert!(body
        .markdown
        .contains("![image](https://example.com/image.png)"));
    assert!(!body.markdown.contains("导航"));
}

#[test]
fn title_extraction_handles_missing_title() {
    assert_eq!(
        extract_html_title("<html><body>no title</body></html>"),
        None
    );
}

#[test]
fn wechat_error_page_is_rejected() {
    let err = detect_wechat_error_page(
        "https://mp.weixin.qq.com/s/abc",
        "<html><head><title>未知错误</title></head><body>你暂无权限查看此页面内容。</body></html>",
    )
    .expect_err("应识别公众号错误页");

    assert!(matches!(
        err.kind,
        PipelineFailureKind::AwaitingManualInput { .. }
    ));
}

#[test]
fn redirected_wechat_error_page_is_detected_by_final_url() {
    let err = validate_fetched_html(
        "https://short.example/abc",
        "https://mp.weixin.qq.com/s/abc",
        "<html><head><title>未知错误</title></head><body>你暂无权限查看此页面内容。</body></html>",
    )
    .expect_err("应按最终 URL 识别公众号错误页");

    assert!(matches!(
        err.kind,
        PipelineFailureKind::AwaitingManualInput { .. }
    ));
}

#[test]
fn wechat_captcha_redirect_is_rejected() {
    let err = detect_wechat_redirect(
        "https://mp.weixin.qq.com/mp/wappoc_appmsgcaptcha?poc_token=abc&target_url=https%3A%2F%2Fmp.weixin.qq.com%2Fs%2Fxyz",
    )
    .expect_err("应识别公众号验证码跳转");

    assert!(matches!(
        err.kind,
        PipelineFailureKind::AwaitingManualInput { .. }
    ));
}

#[test]
fn non_wechat_urls_allow_http_redirects() {
    assert!(!should_disable_http_redirects(
        "https://example.com/redirect"
    ));
    assert!(!should_disable_http_redirects("https://x.com/t/abc"));
}

#[test]
fn wechat_urls_keep_redirect_guard() {
    assert!(should_disable_http_redirects(
        "https://mp.weixin.qq.com/s/demo"
    ));
    assert!(!should_disable_http_redirects(
        "https://example.com/article"
    ));
}

#[test]
fn http_redirect_to_private_target_is_rejected() {
    let result = should_reject_http_redirect_target("http://169.254.169.254/latest/meta-data/", unresolved);
    assert!(result.is_some());
    assert_eq!(result.unwrap(), "ssrf_redirect_private_target");

    let result = should_reject_http_redirect_target("http://127.0.0.1/admin", unresolved);
    assert!(result.is_some());
    assert_eq!(result.unwrap(), "ssrf_redirect_private_target");

    let result = should_reject_http_redirect_target("http://[::1]/secret", unresolved);
    assert!(result.is_some());
    assert_eq!(result.unwrap(), "ssrf_redirect_private_target");

    assert!(should_reject_http_redirect_target("https://example.com/article", unresolved).is_none());
}

#[test]
fn wechat_domain_prefers_browser_capture() {
    assert!(should_prefer_browser_capture(
        "https://mp.weixin.qq.com/s/YUvXg9i31QuQN6t-zRTe8g"
    ));
    assert!(!should_prefer_browser_capture(
        "https://example.com/article"
    ));
}

#[test]
fn primary_body_extracts_wechat_title_and_content() {
    let html = r#"
<html>
  <body>
    <h1 id="activity-name">公众号标题</h1>
    <div id="js_content">
      <p>第一段内容</p>
      <p>第二段内容</p>
    </div>
  </body>
</html>
"#;

    let body = extract_primary_body(html).expect("应提取出正文");

    assert!(body.contains("## 公众号标题"));
    assert!(body.contains("第一段内容"));
    assert!(body.contains("第二段内容"));
}

#[test]
fn browser_capture_response_paths_must_match_request() {
    let request = BrowserCaptureRequest {
        url: "https://mp.weixin.qq.com/s/demo".to_string(),
        html_path: "/tmp/expected.html".to_string(),
        screenshot_path: "/tmp/expected.png".to_string(),
        timeout_ms: 30_000,
        headless: true,
        mobile_viewport: true,
    };
    let response = BrowserCaptureResponse {
        ok: true,
        page_kind: "article".to_string(),
        final_url: "https://mp.weixin.qq.com/s/demo".to_string(),
        title: Some("标题".to_string()),
        html_path: "/tmp/other.html".to_string(),
        screenshot_path: "/tmp/other.png".to_string(),
        reason: None,
        logs: Vec::new(),
    };

    let err = validate_browser_capture_paths(&request, &response, None)
        .expect_err("应拒绝非预期的浏览器产物路径");

    assert!(matches!(
        err.kind,
        PipelineFailureKind::AwaitingManualInput { .. }
    ));
    assert!(err.message.contains("非预期产物路径"));
}

#[test]
fn primary_body_keeps_links_and_images() {
    let html = r#"
<html>
  <body>
    <h1 id="activity-name">公众号标题</h1>
    <div id="js_content">
      <p>正文第一段</p>
      <p><a href="https://example.com/link">相关阅读</a></p>
      <img data-src="https://example.com/image.jpg" />
    </div>
  </body>
</html>
"#;

    let body = extract_primary_body(html).expect("应提取出正文");

    assert!(body.contains("相关阅读 (https://example.com/link)"));
    assert!(body.contains("![image](https://example.com/image.jpg)"));
}

#[test]
fn primary_body_keeps_links_and_images_with_single_quoted_attrs() {
    let html = r#"
<html>
  <body>
    <h1 id='activity-name'>公众号标题</h1>
    <div id='js_content'>
      <p>正文第一段</p>
      <p><a href='https://example.com/link'>相关阅读</a></p>
      <img data-src='https://example.com/image.jpg' />
    </div>
  </body>
</html>
"#;

    let body = extract_primary_body(html).expect("应提取出正文");

    assert!(body.contains("相关阅读 (https://example.com/link)"));
    assert!(body.contains("![image](https://example.com/image.jpg)"));
}

#[test]
fn rule_summary_generates_from_title_and_paragraphs() {
    let markdown = "这是第一段有效正文，包含了足够多的字符来通过过滤条件。\n\n这是第二段有效正文，同样有足够的字符来通过过滤。\n\n这是第三段有效正文。";

    let summary = generate_rule_summary(Some("文章标题"), markdown).expect("应生成摘要");

    assert!(summary.contains("文章标题"));
    assert!(summary.contains("这是第一段有效正文"));
    assert!(summary.contains("这是第二段有效正文"));
}

#[test]
fn rule_summary_skips_short_paragraphs() {
    let markdown = "短\n\n这是第一段有效正文，包含了足够多的字符来通过过滤条件。";

    let summary = generate_rule_summary(None, markdown).expect("应生成摘要");

    assert!(!summary.contains("短"));
    assert!(summary.contains("这是第一段有效正文"));
}

#[test]
fn rule_summary_filters_navigation_text() {
    assert!(is_navigation_like("版权所有 保留一切权利"));
    assert!(is_navigation_like("https://example.com"));
    assert!(!is_navigation_like(
        "这是一段正常的文章正文内容，用来测试过滤逻辑是否正确工作"
    ));
}

#[test]
fn rule_summary_returns_none_for_empty_input() {
    assert_eq!(generate_rule_summary(None, ""), None);
    assert_eq!(generate_rule_summary(None, "短文本"), None);
}

#[test]
fn page_kind_error_page_short_with_error_title() {
    let html = "<html><head><title>404 Not Found</title></head><body><p>The page was not found.</p></body></html>";
    let markdown = "The page was not found.";
    assert_eq!(classify_http_page_kind(html, markdown), "error_page");
}

#[test]
fn page_kind_error_page_chinese() {
    let html = "<html><head><title>页面不存在</title></head><body>抱歉，您访问的页面不存在。</body></html>";
    let markdown = "抱歉，您访问的页面不存在。";
    assert_eq!(classify_http_page_kind(html, markdown), "error_page");
}

#[test]
fn page_kind_long_article_about_404_not_classified_as_error() {
    let mut body = String::from("这是一篇关于HTTP 404错误的技术文章。");
    for i in 0..20 {
        body.push_str(&format!("\n\n第{}段正文内容，用于增加文章长度确保超过3000字符的阈值。这段文字会不断重复以填满空间。", i));
    }
    let html = format!(
        "<html><head><title>深入理解HTTP 404错误</title></head><body><article>{}</article></body></html>",
        body
    );
    assert_eq!(classify_http_page_kind(&html, &body), "article");
}

#[test]
fn page_kind_index_like_many_links_little_prose() {
    let mut links = String::new();
    for i in 0..15 {
        links.push_str(&format!("<a href=\"/item/{}\">链接{}</a>\n", i, i));
    }
    let html = format!(
        "<html><head><title>文章列表</title></head><body>{}</body></html>",
        links
    );
    let markdown = "简短描述";
    assert_eq!(classify_http_page_kind(&html, markdown), "index_like");
}

#[test]
fn page_kind_index_like_many_list_items() {
    let mut items = String::new();
    for i in 0..10 {
        items.push_str(&format!("<li><a href=\"/p/{}\">帖子{}</a></li>\n", i, i));
    }
    let html = format!(
        "<html><head><title>最新帖子</title></head><body><ul>{}</ul></body></html>",
        items
    );
    let markdown = "帖子0 帖子1 帖子2";
    assert_eq!(classify_http_page_kind(&html, markdown), "index_like");
}

#[test]
fn page_kind_link_post_short_with_link() {
    let html = "<html><head><title>分享</title></head><body><p>推荐阅读 https://example.com/great-article</p></body></html>";
    let markdown = "推荐阅读 https://example.com/great-article";
    assert_eq!(classify_http_page_kind(html, markdown), "link_post");
}

#[test]
fn page_kind_article_keeps_existing_logic() {
    let html = r#"<html><head><title>技术博客</title><meta property="og:type" content="article" /></head><body><article><p>正文段落一，包含足够多的内容。</p><p>正文段落二，继续补充论点。</p><p>正文段落三，总结全文。</p></article></body></html>"#;
    let markdown = "正文段落一，包含足够多的内容。\n\n正文段落二，继续补充论点。\n\n正文段落三，总结全文。";
    assert_eq!(classify_http_page_kind(html, markdown), "article");
}

#[test]
fn page_kind_error_page_detected_without_primary_body() {
    // No <article>/<main>/body content extraction, but error title should still classify
    let html = "<html><head><title>404 Not Found</title></head><body><div>Error occurred.</div></body></html>";
    let body = extract_http_archive_body(html);
    assert_eq!(body.page_kind, "error_page");
}

#[test]
fn page_kind_webpage_fallback() {
    let html = "<html><head><title>Hello World</title></head><body>content</body></html>";
    let markdown = "content";
    assert_eq!(classify_http_page_kind(html, markdown), "webpage");
}

// --- replace_pre_blocks / html_fragment_to_markdown tests ---

#[test]
fn strip_html_tags_removes_all_tags() {
    assert_eq!(
        strip_html_tags("<span>hello</span> <b>world</b>"),
        "hello world"
    );
    assert_eq!(strip_html_tags("no tags here"), "no tags here");
}

#[test]
fn decode_entities_converts_common() {
    assert_eq!(decode_entities_in_text("a&amp;b&nbsp;c"), "a&b c");
    assert_eq!(decode_entities_in_text("&lt;code&gt;"), "<code>");
}

#[test]
fn pre_block_converts_to_code_fence() {
    let html = "<div>text before</div><pre><code>fn main() {</code><code>    println!(\"hello\");</code><code>}</code></pre><div>text after</div>";
    let (result, blocks) = replace_pre_blocks(html);
    let restored = restore_code_placeholders(&result, &blocks);
    assert!(
        restored.contains("```\nfn main() {\nprintln!(\"hello\");\n}\n```"),
        "got: {restored}"
    );
}

#[test]
fn pre_block_wechat_code_snippets() {
    // Simulates WeChat article code block HTML with span-based syntax highlighting
    let html = "<pre><code><span class=\"code-snippet__keyword\">void</span>&nbsp;PrebuiltObjC::<span class=\"code-snippet__title\">generateHashTables</span>(RuntimeState&amp; state)</code><code><span>{</span></code><code>&nbsp;&nbsp;<span class=\"code-snippet__comment\">// comment</span></code></pre>";
    let (result, blocks) = replace_pre_blocks(html);
    let restored = restore_code_placeholders(&result, &blocks);
    assert!(
        restored.contains("void PrebuiltObjC::generateHashTables(RuntimeState& state)"),
        "got: {restored}"
    );
    assert!(restored.contains("// comment"), "got: {restored}");
    assert!(restored.contains("```"), "got: {restored}");
}

#[test]
fn html_fragment_to_markdown_preserves_code_block() {
    let html = "<p>See the code:</p><pre><code>let x = 1;</code><code>let y = 2;</code></pre><p>End</p>";
    let md = html_fragment_to_markdown(html);
    assert!(
        md.contains("let x = 1;") && md.contains("let y = 2;"),
        "code content should be present, got: {md}"
    );
    assert!(md.contains("```"), "should contain code fence, got: {md}");
}

#[test]
fn processing_pending_task_creates_markdown_file() {
    let task = PendingTaskRecord {
        task_id: "task-1".to_string(),
        article_id: "article-1".to_string(),
        normalized_url: "https://example.com".to_string(),
        original_url: "https://example.com".to_string(),
    };
    let result = render_http_archive(
        &task,
        &HttpFetchResult {
            html: "<html><head><title>Hello World</title></head><body>content</body></html>"
                .to_string(),
            final_url: "https://example.com".to_string(),
        },
        "2026-04-10T00:00:00+00:00",
    );

    assert!(result.content.contains("task-1"));
    assert!(result.content.contains("https://example.com"));
    assert!(result.content.contains("Hello World"));
    assert!(result.content.contains("source: http"));
    assert!(result.content.contains("page_kind: webpage"));
    assert!(result.content.contains("- archived_at: 2026-04-10T00:00:00+00:00"));
    assert_eq!(result.title, Some("Hello World".to_string()));
    assert_eq!(result.page_kind, "webpage");
}

#[test]
fn manual_content_creates_archive() {
    let task = TaskContentRecord {
        task_id: "task-manual".to_string(),
        article_id: "article-1".to_string(),
        normalized_url: "https://mp.weixin.qq.com/s/abc".to_string(),
        original_url: "https://mp.weixin.qq.com/s/abc".to_string(),
        title: None,
    };
    let (content, title) =
        render_manual_archive(&task, "这是人工补录的正文\n第二行", "2026-04-10T00:00:00+00:00");

    assert!(content.contains("source: manual_input"));
    assert!(content.contains("这是人工补录的正文"));
    assert_eq!(title, Some("这是人工补录的正文".to_string()));
}

#[test]
fn browser_capture_archive_uses_extracted_body() {
    let task = PendingTaskRecord {
        task_id: "task-browser".to_string(),
        article_id: "article-browser".to_string(),
        normalized_url: "https://mp.weixin.qq.com/s/demo".to_string(),
        original_url: "https://mp.weixin.qq.com/s/demo".to_string(),
    };
    let capture = BrowserCaptureResult {
        page_kind: "article".to_string(),
        final_url: "https://mp.weixin.qq.com/s/demo".to_string(),
        title: Some("公众号标题".to_string()),
        html_path: "/data/raw/task-browser.browser.html".to_string(),
        screenshot_path: "/data/snapshots/shot.png".to_string(),
    };
    let content = render_browser_archive(
        &task,
        &capture,
        r#"<html><body><h1 id="activity-name">公众号标题</h1><div id="js_content"><p>正文第一段</p></div></body></html>"#,
        "2026-04-10T00:00:00+00:00",
        "7",
    );

    assert!(content.contains("## 公众号标题"));
    assert!(content.contains("正文第一段"));
    assert!(content.contains("source: browser_capture"));
    assert!(content.contains("- screenshot_path: /data/snapshots/shot.png"));
}

#[test]
fn http_archive_includes_summary_section() {
    let task = PendingTaskRecord {
        task_id: "task-summary".to_string(),
        article_id: "article-1".to_string(),
        normalized_url: "https://example.com/article".to_string(),
        original_url: "https://example.com/article".to_string(),
    };
    let html = r#"<html><head><title>测试文章</title><meta property="og:type" content="article" /></head><body><article><p>这是第一段正文内容，包含了足够多的信息用于形成可读归档和有效摘要。</p><p>这是第二段正文内容，进一步补充了文章的核心观点和论述。</p></article></body></html>"#;
    let result = render_http_archive(
        &task,
        &HttpFetchResult {
            html: html.to_string(),
            final_url: "https://example.com/article".to_string(),
        },
        "2026-04-10T00:00:00+00:00",
    );

    assert!(result.content.contains("## Summary"));
    assert!(result.content.contains("测试文章"));
    assert!(result.content.contains("这是第一段正文内容"));
    assert!(result.summary.is_some());
}

#[test]
fn pipeline_log_payload_keeps_contract_fields() {
    let payload = build_structured_log_payload(
        "2026-04-10T08:00:00+08:00",
        "warn",
        "task_awaiting_manual_input",
        vec![
            ("task_id".to_string(), JsonValue::Text("task-1".to_string())),
            ("source".to_string(), JsonValue::Text("browser_capture".to_string())),
            ("detail".to_string(), JsonValue::Null),
        ],
    );

    assert_eq!(get_str(&payload, "level"), Some("warn".to_string()));
    assert_eq!(get_str(&payload, "event"), Some("task_awaiting_manual_input".to_string()));
    assert_eq!(get_str(&payload, "task_id"), Some("task-1".to_string()));
    assert_eq!(get_str(&payload, "source"), Some("browser_capture".to_string()));
    assert!(get(&payload, "ts").is_some());
    assert!(get(&payload, "detail").is_none());
}
