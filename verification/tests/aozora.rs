use bokai::aozora::line::convert_line;
use bokai::aozora::parser_txt::{decode_bytes, parse_txt};

/// The characters that the descriptions in these texts name.
fn gaiji() -> Vec<(String, String)> {
    vec![
        ("感嘆符疑問符、1-8-78".to_string(), "\u{2049}".to_string()),
        ("「需＋頁」、第3水準1-94-6".to_string(), "顬".to_string()),
    ]
}


#[test]
fn decodes_shift_jis() {
    // "あ" in Shift-JIS = 0x82 0xA0
    let bytes = b"\x82\xA0";
    assert_eq!(decode_bytes(bytes), "あ");
}

#[test]
fn decodes_utf8_with_bom() {
    let bytes = b"\xEF\xBB\xBFhello";
    assert_eq!(decode_bytes(bytes), "hello");
}

#[test]
fn parses_minimal_doc() {
    let src = "タイトル\n著者\n\n-------\n本文行\n";
    let doc = parse_txt(src, &gaiji());
    assert_eq!(doc.title, "タイトル");
    assert_eq!(doc.author, "著者");
    assert!(doc.body_xhtml.contains("本文行"));
}

#[test]
fn ruby_with_explicit_marker() {
    let mut imgs = Vec::new();
    let out = convert_line("当主｜旗太郎《はたたろう》です", &mut imgs, &gaiji());
    assert!(out.contains("<ruby>旗太郎<rp>（</rp><rt>はたたろう</rt>"));
}

#[test]
fn ruby_on_bare_kanji_run() {
    let mut imgs = Vec::new();
    let out = convert_line("法水《のりみず》が来た", &mut imgs, &gaiji());
    assert!(out.contains("<ruby>法水<rp>（</rp><rt>のりみず</rt>"));
}

#[test]
fn sesame_paired() {
    let mut imgs = Vec::new();
    let out = convert_line("これは［＃傍点］強調［＃傍点終わり］だ", &mut imgs, &gaiji());
    assert!(out.contains(r#"<em class="sesame">強調</em>"#));
}

#[test]
fn postfix_bold_wraps_preceding() {
    let mut imgs = Vec::new();
    let out = convert_line("ABCDE［＃「BCD」は太字］", &mut imgs, &gaiji());
    assert!(out.contains("<strong>BCD</strong>"));
    assert!(!out.contains("［＃"));
}

#[test]
fn gaiji_resolves_to_the_character_it_names() {
    // The annotation names the character exactly; `※` is a placeholder for
    // a reader with no table, not the text.
    let mut imgs = Vec::new();
    let out = convert_line("※［＃感嘆符疑問符、1-8-78］あ", &mut imgs, &gaiji());
    assert_eq!(out, "\u{2049}あ");
    let out = convert_line("顳※［＃「需＋頁」、第3水準1-94-6］", &mut imgs, &gaiji());
    assert_eq!(out, "顳顬");
    // A glyph described only in prose has nothing to resolve to.
    let out = convert_line("※［＃「くさかんむり／夷」］", &mut imgs, &gaiji());
    assert_eq!(out, "※");
}

#[test]
fn gaiji_resolves_before_ruby_reads_its_base() {
    // The annotation sits between the character and its reading, so a ruby
    // pass running first saw no base at all and left `《…》` in the text.
    let mut imgs = Vec::new();
    let out = convert_line(
        "両側の顳※［＃「需＋頁」、第3水準1-94-6］《こめかみ》に",
        &mut imgs, &gaiji());
    assert!(
        out.contains("<ruby>顳顬<rp>（</rp><rt>こめかみ</rt>"),
        "got: {out}"
    );
    assert!(!out.contains('《'), "got: {out}");
}

#[test]
fn ruby_attaches_to_latin_and_iteration_marks() {
    // Aozora only requires the `｜` marker when the base does not start on a
    // character-class boundary. A kanji-only base rule dropped every
    // Western word's reading and every base ending in an iteration mark.
    let mut imgs = Vec::new();
    let out = convert_line("Quean《クイーン》 locked《ロックト》", &mut imgs, &gaiji());
    assert!(
        out.contains("<ruby>Quean<rp>（</rp><rt>クイーン</rt>"),
        "got: {out}"
    );
    assert!(
        out.contains("<ruby>locked<rp>（</rp><rt>ロックト</rt>"),
        "got: {out}"
    );
    let out = convert_line("聖鐘の殷々《いんいん》たる", &mut imgs, &gaiji());
    assert!(
        out.contains("<ruby>殷々<rp>（</rp><rt>いんいん</rt>"),
        "got: {out}"
    );
    let out = convert_line("ＰＡＴＥＲ《パテル》", &mut imgs, &gaiji());
    assert!(
        out.contains("<ruby>ＰＡＴＥＲ<rp>（</rp><rt>パテル</rt>"),
        "got: {out}"
    );
}

#[test]
fn a_reading_on_a_glyph_image_lands_in_its_description() {
    // A glyph with no character to stand for it arrives as an image. Ruby
    // cannot ride on an image through KFX, so the reading is recorded on
    // the image rather than emitted as markup that only one output keeps.
    let mut imgs = Vec::new();
    let out = convert_line(
        "ヘブライ文字の［＃ヘブライ文字「YOD」（fig24.png、横15×縦23）入る］《ヨッド》まで",
        &mut imgs, &gaiji());
    assert_eq!(
        out,
        r#"ヘブライ文字の<img src="../images/fig24.png" alt="ヘブライ文字「YOD」（ヨッド）"/>まで"#
    );
    // When the description already names the reading, nothing is appended.
    let out = convert_line(
        "呪語の［＃底本が「ラン」とルビを付した梵字（fig15.png、横18×縦23）入る］《ラン》の字",
        &mut imgs, &gaiji());
    assert_eq!(
        out,
        r#"呪語の<img src="../images/fig15.png" alt="底本が「ラン」とルビを付した梵字"/>の字"#
    );
}

#[test]
fn warichu_keeps_the_source_delimiters() {
    // The marker states that the note is set inline in two lines; the
    // parentheses around it are the 底本's own text and are already there.
    let mut imgs = Vec::new();
    let out = convert_line(
        "人形（［＃割り注］土耳古の操人形［＃割り注終わり］）を",
        &mut imgs, &gaiji());
    assert_eq!(
        out,
        r#"人形（<span class="warichu">土耳古の操人形</span>）を"#
    );
}

#[test]
fn image_ref_collected() {
    let mut imgs = Vec::new();
    let out = convert_line("見ろ［＃図1（fig01.png、横480×縦320）入る］ここ", &mut imgs, &gaiji());
    assert_eq!(imgs, vec!["fig01.png".to_string()]);
    assert!(out.contains(r#"<img src="../images/fig01.png" alt="図1"/>"#));
}

#[test]
fn block_indent_state_machine() {
    let src = "タイトル\n著者\n\n-------\n通常\n［＃ここから１字下げ］\n字下げ中\n［＃ここで字下げ終わり］\n通常2\n";
    let doc = parse_txt(src, &gaiji());
    assert!(doc.body_xhtml.contains(r#"<p class="indent">字下げ中</p>"#));
    assert!(doc.body_xhtml.contains("<p>通常2</p>"));
}

#[test]
fn indent_depth_is_carried_not_flattened() {
    // Each depth carries its own margin, and a one-line `［＃N字下げ］`
    // indents that one line.
    let src = "T\nA\n\n-------\n［＃ここから４字下げ］\n深い\n［＃ここで字下げ終わり］\n［＃５字下げ］一行だけ\n［＃天から２字下げ］天から\n";
    let doc = parse_txt(src, &gaiji());
    let body = &doc.body_xhtml;
    assert!(
        body.contains(r#"<p class="indent" style="margin-top:4em">深い</p>"#),
        "body:\n{body}"
    );
    assert!(
        body.contains(r#"<p class="indent" style="margin-top:5em">一行だけ</p>"#),
        "body:\n{body}"
    );
    assert!(
        body.contains(r#"<p class="indent" style="margin-top:2em">天から</p>"#),
        "body:\n{body}"
    );
}

#[test]
fn hanging_indent_is_measured_back_from_the_wrap_depth() {
    let src = "T\nA\n\n-------\n［＃ここから１字下げ、折り返して４字下げ］\n本文\n［＃ここで字下げ終わり］\n［＃ここから改行天付き、折り返して１字下げ］\n天付き\n［＃ここで字下げ終わり］\n";
    let doc = parse_txt(src, &gaiji());
    let body = &doc.body_xhtml;
    assert!(
        body.contains(r#"<p class="indent" style="margin-top:4em;text-indent:-3em">本文</p>"#),
        "body:\n{body}"
    );
    assert!(
        body.contains(
            r#"<p class="indent" style="margin-top:1em;text-indent:-1em">天付き</p>"#
        ),
        "body:\n{body}"
    );
}

#[test]
fn block_end_marker_still_covers_its_own_line() {
    // `［＃ここで…終わり］` closes a range that *includes* the line it sits
    // on. Popping the style before writing that line dropped it from the
    // one paragraph a single-line block consists of.
    let src =
        "T\nA\n\n-------\n［＃ここからゴシック体］\n本文［＃ここでゴシック体終わり］\n後\n";
    let doc = parse_txt(src, &gaiji());
    let body = &doc.body_xhtml;
    assert!(
        body.contains(r#"<p class="gothic">本文</p>"#),
        "body:\n{body}"
    );
    assert!(body.contains("<p>後</p>"), "body:\n{body}");
}

#[test]
fn yokogumi_stays_in_the_vertical_flow() {
    // The marker records that the 底本 set the run horizontally. Carrying
    let src = "T\nA\n\n-------\n式は［＃横組み］犯人＋Ｘ［＃横組み終わり］だ\n［＃ここから横組み］\n段落［＃ここで横組み終わり］\n後\n";
    let doc = parse_txt(src, &gaiji());
    let body = &doc.body_xhtml;
    assert!(!body.contains("yokogumi"), "body:\n{body}");
    assert!(!body.contains("横組み"), "body:\n{body}");
    assert!(body.contains("<p>式は犯人＋Ｘだ</p>"), "body:\n{body}");
    assert!(body.contains("<p>段落</p>"), "body:\n{body}");
    assert!(body.contains("<p>後</p>"), "body:\n{body}");
}

#[test]
fn a_styleless_block_marker_does_not_pop_an_enclosing_style() {
    // 横組み renders as nothing, but its `終わり` must still release its own
    // slot rather than the style opened around it.
    let src = "T\nA\n\n-------\n［＃ここからゴシック体］\n［＃ここから横組み］\n中［＃ここで横組み終わり］\nまだゴシック\n［＃ここでゴシック体終わり］\n後\n";
    let doc = parse_txt(src, &gaiji());
    let body = &doc.body_xhtml;
    assert!(
        body.contains(r#"<p class="gothic">中</p>"#),
        "body:\n{body}"
    );
    assert!(
        body.contains(r#"<p class="gothic">まだゴシック</p>"#),
        "body:\n{body}"
    );
    assert!(body.contains("<p>後</p>"), "body:\n{body}");
}

#[test]
fn keigakomi_block_is_one_paragraph_with_breaks() {
    // A 罫囲み (ruled box) block is ONE `<p>` whose lines are joined by
    let src = "T\nA\n\n-------\n前\n［＃ここから罫囲み］\n一行目\n二行目\n三行目\n［＃ここで罫囲み終わり］\n後\n";
    let doc = parse_txt(src, &gaiji());
    let body = &doc.body_xhtml;
    // Exactly one box <p>; lines joined by <br/>; no per-line boxes, no div.
    assert!(
        body.contains(r#"<p class="keigakomi">一行目<br/>二行目<br/>三行目</p>"#),
        "body:\n{body}"
    );
    assert_eq!(
        body.matches(r#"class="keigakomi""#).count(),
        1,
        "body:\n{body}"
    );
    assert!(
        !body.contains("<div"),
        "box must not be a div; body:\n{body}"
    );
}

#[test]
fn jizume_markers_leave_no_empty_paragraph() {
    // `字詰め` (chars-per-line) has no reflowable equivalent; the markers
    // must be consumed, not left to emit a stray empty <p>.
    let src =
        "T\nA\n\n-------\n前\n［＃ここから３５字詰め］\n本文\n［＃ここで字詰め終わり］\n後\n";
    let doc = parse_txt(src, &gaiji());
    let body = &doc.body_xhtml;
    assert!(!body.contains("<p></p>"), "no empty <p>; body:\n{body}");
    assert!(
        !body.contains(r#"<p class="indent"></p>"#),
        "no empty indent <p>; body:\n{body}"
    );
    assert!(
        !body.contains("字詰"),
        "marker text stripped; body:\n{body}"
    );
    assert!(body.contains("<p>本文</p>"), "body:\n{body}");
}

#[test]
fn box_end_marker_keeps_its_own_line_in_the_box() {
    // Same shape as `block_end_marker_still_covers_its_own_line`: the last
    // line of a box may carry the `終わり` marker, and it belongs inside.
    let src =
        "T\nA\n\n-------\n［＃ここから罫囲み］\n一行目\n二行目［＃ここで罫囲み終わり］\n後\n";
    let doc = parse_txt(src, &gaiji());
    let body = &doc.body_xhtml;
    assert!(
        body.contains(r#"<p class="keigakomi">一行目<br/>二行目</p>"#),
        "body:\n{body}"
    );
    assert!(body.contains("<p>後</p>"), "body:\n{body}");
}

#[test]
fn keigakomi_box_closes_at_chapter_heading() {
    // An unterminated box must not leak across a heading reset (which clears
    // block state) — the box `<p>` is force-closed so the XHTML stays
    // balanced and the heading is emitted outside the box.
    let src = "T\nA\n\n-------\n［＃ここから罫囲み］\n箱の中\n［＃中見出し］次章［＃中見出し終わり］\n本文\n";
    let doc = parse_txt(src, &gaiji());
    let body = &doc.body_xhtml;
    let box_open = body.find(r#"<p class="keigakomi">"#).expect("box opened");
    let box_close = body[box_open..]
        .find("</p>")
        .map(|i| box_open + i)
        .expect("box closed");
    let h_start = body.find("<h3").expect("heading present");
    assert!(
        box_close < h_start,
        "heading after box close; body:\n{body}"
    );
    assert!(
        !body[box_open..box_close].contains("<h3"),
        "heading not inside box; body:\n{body}"
    );
}

#[test]
fn heading_emits_toc_entry() {
    let src = "T\nA\n\n-------\n［＃大見出し］序章［＃大見出し終わり］\n本文\n";
    let doc = parse_txt(src, &gaiji());
    assert_eq!(doc.toc.len(), 1);
    assert_eq!(doc.toc[0].level, 2);
    assert_eq!(doc.toc[0].text, "序章");
    assert!(doc.body_xhtml.contains(r#"<h2 id="h1">序章</h2>"#));
}

#[test]
fn colophon_extracted() {
    let src = "T\nA\n\n-------\n本文\n\n底本：「テスト」テスト社\n　　　1990年1月1日初版\n青空文庫作成ファイル：\nfoo\n";
    let doc = parse_txt(src, &gaiji());
    assert!(doc.colophon.contains("底本：「テスト」テスト社"));
    assert!(!doc.colophon.contains("青空文庫"));
    // Colophon is not in the body.
    assert!(!doc.body_xhtml.contains("底本"));
}

#[test]
fn postfix_heading_with_nested_quotes() {
    // 坂口安吾『不連続殺人事件』ch.22: the heading text itself contains a
    // nested 「…」. The greedy quoted capture must still detect it as a
    // 中見出し (→ <h3>) and emit a TOC entry, not drop it to a plain <p>.
    let src = "T\nA\n\n-------\n［＃５字下げ］二十二　「八月九日　宿命の日」［＃「二十二　「八月九日　宿命の日」」は中見出し］\n本文\n";
    let doc = parse_txt(src, &gaiji());
    assert_eq!(
        doc.toc.len(),
        1,
        "nested-quote heading must produce a TOC entry"
    );
    assert_eq!(doc.toc[0].level, 3);
    assert_eq!(doc.toc[0].text, "二十二　「八月九日　宿命の日」");
    assert!(
        doc.body_xhtml
            .contains(r#"<h3 id="h1">二十二　「八月九日　宿命の日」</h3>"#),
        "expected <h3> heading, got body:\n{}",
        doc.body_xhtml
    );
}
