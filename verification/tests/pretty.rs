use bokai::pretty::{pretty_css, pretty_xhtml};

#[test]
fn pretty_xhtml_breaks_only_at_block_boundaries() {
    let src = "<?xml version=\"1.0\"?>\n<!DOCTYPE html>\n<html xmlns=\"x\"><head><title>t</title><link rel=\"stylesheet\" href=\"s.css\"/></head><body><div><p class=\"a\">　私は<ruby><rb>人</rb><rt>ひと</rt></ruby>、<em>x</em> y<br/></p>\n  <p>b</p></div><pre>\n  keep\n   this</pre><!-- c --><p>tail <span>s</span></p></body></html>";
    let out = pretty_xhtml(src);
    assert_eq!(
        out,
        "<?xml version=\"1.0\"?>\n<!DOCTYPE html>\n<html xmlns=\"x\">\n  <head>\n    <title>t</title>\n    <link rel=\"stylesheet\" href=\"s.css\"/>\n  </head>\n  <body>\n    <div>\n      <p class=\"a\">　私は<ruby><rb>人</rb><rt>ひと</rt></ruby>、<em>x</em> y<br/></p>\n      <p>b</p>\n    </div>\n    <pre>\n  keep\n   this</pre>\n    <!-- c -->\n    <p>tail <span>s</span></p>\n  </body>\n</html>\n"
    );
    assert_eq!(pretty_xhtml(&out), out);
}

#[test]
fn edit_xhtml_breaks_only_at_block_boundaries() {
    let src = "<?xml version=\"1.0\"?>\n<!DOCTYPE html>\n<html xmlns=\"x\"><head><title>t</title><link rel=\"stylesheet\" href=\"s.css\"/></head><body><div><p class=\"a\">　私は<ruby><rb>人</rb><rt>ひと</rt></ruby>、<em>x</em> y<br/></p>\n  <p>b</p></div><pre>\n  keep\n   this</pre><!-- c --><p>tail <span>s</span></p></body></html>";
    let out = pretty_xhtml(src);
    assert_eq!(
        out,
        "<?xml version=\"1.0\"?>\n<!DOCTYPE html>\n<html xmlns=\"x\">\n  <head>\n    <title>t</title>\n    <link rel=\"stylesheet\" href=\"s.css\"/>\n  </head>\n  <body>\n    <div>\n      <p class=\"a\">　私は<ruby><rb>人</rb><rt>ひと</rt></ruby>、<em>x</em> y<br/></p>\n      <p>b</p>\n    </div>\n    <pre>\n  keep\n   this</pre>\n    <!-- c -->\n    <p>tail <span>s</span></p>\n  </body>\n</html>\n"
    );
    assert_eq!(pretty_xhtml(&out), out);
}

#[test]
fn pretty_css_gets_one_declaration_per_line() {
    let src = "@charset \"utf-8\";\n.a,.b   >  .c{color:red;margin:0 auto}\n@media   (min-width:1px){.d{x:y} /* k */ .e{z:w;}}\n@font-face{font-family:\"F  G\";src:url(a.ttf)}";
    let out = pretty_css(src);
    assert_eq!(
        out,
        "@charset \"utf-8\";\n\n.a, .b > .c {\n  color: red;\n  margin: 0 auto;\n}\n\n@media (min-width:1px) {\n  .d {\n    x: y;\n  }\n  /* k */\n  .e {\n    z: w;\n  }\n}\n\n@font-face {\n  font-family: \"F  G\";\n  src: url(a.ttf);\n}\n"
    );
    assert_eq!(pretty_css(&out), out);
}

#[test]
fn edit_css_gets_one_declaration_per_line() {
    let src = "@charset \"utf-8\";\n.a,.b   >  .c{color:red;margin:0 auto}\n@media   (min-width:1px){.d{x:y} /* k */ .e{z:w;}}\n@font-face{font-family:\"F  G\";src:url(a.ttf)}";
    let out = pretty_css(src);
    assert_eq!(
        out,
        "@charset \"utf-8\";\n\n.a, .b > .c {\n  color: red;\n  margin: 0 auto;\n}\n\n@media (min-width:1px) {\n  .d {\n    x: y;\n  }\n  /* k */\n  .e {\n    z: w;\n  }\n}\n\n@font-face {\n  font-family: \"F  G\";\n  src: url(a.ttf);\n}\n"
    );
    assert_eq!(pretty_css(&out), out);
}

#[test]
fn a_comment_of_several_lines_is_re_indented_once() {
    let src = "<html><body><!-- one\n\n      <p> two --><div>a <b>c</b> </div>\ntail</body></html>";
    let out = pretty_xhtml(src);
    assert_eq!(
        out,
        "<html>\n  <body>\n    <!-- one\n    <p> two -->\n    <div>a <b>c</b></div>\n    tail</body>\n</html>\n"
    );
    assert_eq!(pretty_xhtml(&out), out);
}
