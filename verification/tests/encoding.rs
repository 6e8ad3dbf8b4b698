//! Encoding structured values as markup text, across declaration and
//! indentation options.

use xml2json::{Declaration, Encoding, Indentation, Version, XmlConfig};

const CDS_JSON: &str = "{\"rdf:RDF\":{\"$\":{\"xmlns:rdf\":\"http://www.w3.org/1999/02/22-rdf-syntax-ns#\",\"xmlns:cd\":\"http://www.recshop.fake/cd#\"},\"rdf:Description\":[{\"$\":{\"rdf:about\":\"http://www.recshop.fake/cd/The Money Store\"},\"cd:artist\":[\"Death Grips\"],\"cd:country\":[\"USA\"],\"cd:company\":[\"Third Worlds\"],\"cd:price\":[\"00.00\"],\"cd:year\":[\"2012\"]}]}}";

const CHILDOBJ_JSON: &str = "{\"SOAP-ENV:Envelope\":{\"$\":{\"xmlns:SOAP-ENV\":\"env\",\"xmlns:ns1\":\"ns1\"},\"SOAP-ENV:Body\":[{\"ns1:createWorkflowProof\":[{\"SessionID\":[\"sid\"],\"OwnerID\":[0],\"Hash\":[\"browns\"]}]}]}}";

const COMPLEX_JSON: &str = "{\"sample\":{\"simpletest\":[\"data\"],\"simpletest2\":[\"data\"],\"chartest\":[{\"_\":\"Character data here!\",\"$\":{\"desc\":\"Test for CHARs\"}}],\"cdatatest\":[{\"_\":\"CDATA here!\",\"$\":{\"desc\":\"Test for CDATA\",\"misc\":\"true\"}}],\"cdatawhitespacetest\":[{\"_\":\"\",\"$\":{\"desc\":\"Test for CDATA with whitespace\",\"misc\":\"true\"}}],\"nochartest\":[{\"$\":{\"desc\":\"No data\",\"misc\":\"false\"}}],\"nochildrentest\":[{\"$\":{\"desc\":\"No data\",\"misc\":\"false\"}}],\"whitespacetest\":[{\"_\":\"Line One Line Two\",\"$\":{\"desc\":\"Test for       normalizing and trimming\"}}],\"listtest\":[{\"$\":{\"attr\":\"Attribute\"},\"item\":[{\"_\":\"This is character data!\",\"subitem\":[\"Foo(1)\",\"Foo(2)\",\"Foo(3)\",\"Foo(4)\"]},\"Qux.\",\"Quux.\"],\"single\":[\"Single\"]}],\"arraytest\":[{\"item\":[{\"subitem\":[\"Baz.\"]},{\"subitem\":[\"Foo.\",\"Bar.\"]}]}],\"emptytest\":[\"\"],\"tagcasetest\":[{\"tAg\":[\"something\"],\"TAG\":[\"something else\"],\"tag\":[\"something third\"]}],\"ordertest\":[{\"one\":[\"1\",\"4\"],\"two\":[\"2\",\"5\"],\"three\":[\"3\",\"6\"]}],\"validatortest\":[{\"emptyarray\":[\"\"],\"oneitemarray\":[{\"item\":[\"Bar.\"]}],\"numbertest\":[\"42\"],\"stringtest\":[\"43\"]}],\"pfx:top\":[{\"$\":{\"xmlns:pfx\":\"http://foo.com\",\"pfx:attr\":\"baz\"},\"middle\":[{\"$\":{\"xmlns\":\"http://bar.com\"}}]}],\"attrNameProcessTest\":[{\"$\":{\"camelCaseAttr\":\"camelCaseAttrValue\",\"lowercaseattr\":\"lowercaseattrvalue\"}}],\"attrValueProcessTest\":[{\"$\":{\"camelCaseAttr\":\"camelCaseAttrValue\",\"lowerCaseAttr\":\"lowercaseattrvalue\"}}],\"tagNameProcessTest\":[\"\"],\"valueProcessTest\":[\"some value\"],\"textordertest\":[{\"_\":\"this is text with in the middle\",\"b\":[\"markup\"],\"em\":[\"like this\"]}],\"emptytestanother\":[\"\\n\\n    \"]}}";

const LISTS_JSON: &str = "{\"outer\":{\"item\":[{\"_\":\"This is character data!\",\"subitem\":[\"Foo(1)\",\"Foo(2)\",\"Foo(3)\",4]},\"Qux.\",\"Quux.\"]}}";

const MULTIROOT_JSON: &str = "{\"key1\":\"Value1\",\"key2\":\"Value2\"}";

const SINGLEROOT_JSON: &str = "{\"foo\":\"bar\"}";

const SOAP_JSON: &str = "{\"SOAP-ENV:Envelope\":{\"$\":{\"xmlns:SOAP-ENV\":\"http://schemas.xmlsoap.org/soap/envelope/\",\"xmlns:ns1\":\"https://paper-street.soap.com/\"},\"SOAP-ENV:Body\":[{\"ns1:createWorkflowProof\":[{\"SessionID\":[\"sid\"],\"Stages\":[{\"item\":[{\"stage_reviewers\":[{\"item\":[{\"email\":[\"robert.paulson@gmail.com\"]}]}],\"name\":[\"Stage 1\"]},{\"stage_reviewers\":[{\"item\":[{\"email\":[\"tyler.durden@gmail.com\"]}]}],\"name\":[\"Stage 2\"]}]}]}]}]}}";

#[test]
fn xml_build_cds_default() {
    let expected = "<?xml version=\"1.0\" encoding=\"UTF-8\" standalone=\"yes\"?>\n<rdf:RDF xmlns:rdf=\"http://www.w3.org/1999/02/22-rdf-syntax-ns#\" xmlns:cd=\"http://www.recshop.fake/cd#\">\n  <rdf:Description rdf:about=\"http://www.recshop.fake/cd/The Money Store\">\n    <cd:artist>Death Grips</cd:artist>\n    <cd:country>USA</cd:country>\n    <cd:company>Third Worlds</cd:company>\n    <cd:price>00.00</cd:price>\n    <cd:year>2012</cd:year>\n  </rdf:Description>\n</rdf:RDF>";
    let mut xml_builder = XmlConfig::new()
    .rendering(Indentation::new(b' ', 2))
    .decl(Declaration::new(Version::XML10, Some(Encoding::UTF8), Some(true)))
    .root_name("root")
    .finalize();
    let result = xml_builder.build_from_json_string(CDS_JSON);
    let actual = result.expect("Error building XML");
    assert_eq!(expected, actual);
}

#[test]
fn build_cds_pretty_false() {
    let expected = "<?xml version=\"1.0\" encoding=\"UTF-8\" standalone=\"yes\"?><rdf:RDF xmlns:rdf=\"http://www.w3.org/1999/02/22-rdf-syntax-ns#\" xmlns:cd=\"http://www.recshop.fake/cd#\"><rdf:Description rdf:about=\"http://www.recshop.fake/cd/The Money Store\"><cd:artist>Death Grips</cd:artist><cd:country>USA</cd:country><cd:company>Third Worlds</cd:company><cd:price>00.00</cd:price><cd:year>2012</cd:year></rdf:Description></rdf:RDF>";
    let mut xml_builder = XmlConfig::new()
    .decl(Declaration::new(Version::XML10, Some(Encoding::UTF8), Some(true)))
    .root_name("root")
    .finalize();
    let result = xml_builder.build_from_json_string(CDS_JSON);
    let actual = result.expect("Error building XML");
    assert_eq!(expected, actual);
}

#[test]
fn build_cds_indent_tab() {
    let expected = "<?xml version=\"1.0\" encoding=\"UTF-8\" standalone=\"yes\"?>\n<rdf:RDF xmlns:rdf=\"http://www.w3.org/1999/02/22-rdf-syntax-ns#\" xmlns:cd=\"http://www.recshop.fake/cd#\">\n\t<rdf:Description rdf:about=\"http://www.recshop.fake/cd/The Money Store\">\n\t\t<cd:artist>Death Grips</cd:artist>\n\t\t<cd:country>USA</cd:country>\n\t\t<cd:company>Third Worlds</cd:company>\n\t\t<cd:price>00.00</cd:price>\n\t\t<cd:year>2012</cd:year>\n\t</rdf:Description>\n</rdf:RDF>";
    let mut xml_builder = XmlConfig::new()
    .rendering(Indentation::new(b'\t', 1))
    .decl(Declaration::new(Version::XML10, Some(Encoding::UTF8), Some(true)))
    .root_name("root")
    .finalize();
    let result = xml_builder.build_from_json_string(CDS_JSON);
    let actual = result.expect("Error building XML");
    assert_eq!(expected, actual);
}

#[test]
fn build_cds_indent_empty() {
    let expected = "<?xml version=\"1.0\" encoding=\"UTF-8\" standalone=\"yes\"?>\n<rdf:RDF xmlns:rdf=\"http://www.w3.org/1999/02/22-rdf-syntax-ns#\" xmlns:cd=\"http://www.recshop.fake/cd#\">\n<rdf:Description rdf:about=\"http://www.recshop.fake/cd/The Money Store\">\n<cd:artist>Death Grips</cd:artist>\n<cd:country>USA</cd:country>\n<cd:company>Third Worlds</cd:company>\n<cd:price>00.00</cd:price>\n<cd:year>2012</cd:year>\n</rdf:Description>\n</rdf:RDF>";
    let mut xml_builder = XmlConfig::new()
    .rendering(Indentation::new(b' ', 0))
    .decl(Declaration::new(Version::XML10, Some(Encoding::UTF8), Some(true)))
    .root_name("root")
    .finalize();
    let result = xml_builder.build_from_json_string(CDS_JSON);
    let actual = result.expect("Error building XML");
    assert_eq!(expected, actual);
}

#[test]
fn build_cds_version_11() {
    let expected = "<?xml version=\"1.1\" encoding=\"UTF-8\" standalone=\"yes\"?>\n<rdf:RDF xmlns:rdf=\"http://www.w3.org/1999/02/22-rdf-syntax-ns#\" xmlns:cd=\"http://www.recshop.fake/cd#\">\n  <rdf:Description rdf:about=\"http://www.recshop.fake/cd/The Money Store\">\n    <cd:artist>Death Grips</cd:artist>\n    <cd:country>USA</cd:country>\n    <cd:company>Third Worlds</cd:company>\n    <cd:price>00.00</cd:price>\n    <cd:year>2012</cd:year>\n  </rdf:Description>\n</rdf:RDF>";
    let mut xml_builder = XmlConfig::new()
    .rendering(Indentation::new(b' ', 2))
    .decl(Declaration::new(Version::XML11, Some(Encoding::UTF8), Some(true)))
    .root_name("root")
    .finalize();
    let result = xml_builder.build_from_json_string(CDS_JSON);
    let actual = result.expect("Error building XML");
    assert_eq!(expected, actual);
}

#[test]
fn build_cds_standalone_false() {
    let expected = "<?xml version=\"1.0\" encoding=\"UTF-8\" standalone=\"no\"?>\n<rdf:RDF xmlns:rdf=\"http://www.w3.org/1999/02/22-rdf-syntax-ns#\" xmlns:cd=\"http://www.recshop.fake/cd#\">\n  <rdf:Description rdf:about=\"http://www.recshop.fake/cd/The Money Store\">\n    <cd:artist>Death Grips</cd:artist>\n    <cd:country>USA</cd:country>\n    <cd:company>Third Worlds</cd:company>\n    <cd:price>00.00</cd:price>\n    <cd:year>2012</cd:year>\n  </rdf:Description>\n</rdf:RDF>";
    let mut xml_builder = XmlConfig::new()
    .rendering(Indentation::new(b' ', 2))
    .decl(Declaration::new(Version::XML10, Some(Encoding::UTF8), Some(false)))
    .root_name("root")
    .finalize();
    let result = xml_builder.build_from_json_string(CDS_JSON);
    let actual = result.expect("Error building XML");
    assert_eq!(expected, actual);
}

#[test]
fn build_cds_root_name_object() {
    let expected = "<?xml version=\"1.0\" encoding=\"UTF-8\" standalone=\"yes\"?>\n<object>\n  <rdf:RDF xmlns:rdf=\"http://www.w3.org/1999/02/22-rdf-syntax-ns#\" xmlns:cd=\"http://www.recshop.fake/cd#\">\n    <rdf:Description rdf:about=\"http://www.recshop.fake/cd/The Money Store\">\n      <cd:artist>Death Grips</cd:artist>\n      <cd:country>USA</cd:country>\n      <cd:company>Third Worlds</cd:company>\n      <cd:price>00.00</cd:price>\n      <cd:year>2012</cd:year>\n    </rdf:Description>\n  </rdf:RDF>\n</object>";
    let mut xml_builder = XmlConfig::new()
    .rendering(Indentation::new(b' ', 2))
    .decl(Declaration::new(Version::XML10, Some(Encoding::UTF8), Some(true)))
    .root_name("object")
    .finalize();
    let result = xml_builder.build_from_json_string(CDS_JSON);
    let actual = result.expect("Error building XML");
    assert_eq!(expected, actual);
}

#[test]
fn build_childobj_default() {
    let expected = "<?xml version=\"1.0\" encoding=\"UTF-8\" standalone=\"yes\"?>\n<SOAP-ENV:Envelope xmlns:SOAP-ENV=\"env\" xmlns:ns1=\"ns1\">\n  <SOAP-ENV:Body>\n    <ns1:createWorkflowProof>\n      <SessionID>sid</SessionID>\n      <OwnerID>0</OwnerID>\n      <Hash>browns</Hash>\n    </ns1:createWorkflowProof>\n  </SOAP-ENV:Body>\n</SOAP-ENV:Envelope>";
    let mut xml_builder = XmlConfig::new()
    .rendering(Indentation::new(b' ', 2))
    .decl(Declaration::new(Version::XML10, Some(Encoding::UTF8), Some(true)))
    .root_name("root")
    .finalize();
    let result = xml_builder.build_from_json_string(CHILDOBJ_JSON);
    let actual = result.expect("Error building XML");
    assert_eq!(expected, actual);
}

#[test]
fn build_childobj_pretty_false() {
    let expected = "<?xml version=\"1.0\" encoding=\"UTF-8\" standalone=\"yes\"?><SOAP-ENV:Envelope xmlns:SOAP-ENV=\"env\" xmlns:ns1=\"ns1\"><SOAP-ENV:Body><ns1:createWorkflowProof><SessionID>sid</SessionID><OwnerID>0</OwnerID><Hash>browns</Hash></ns1:createWorkflowProof></SOAP-ENV:Body></SOAP-ENV:Envelope>";
    let mut xml_builder = XmlConfig::new()
    .decl(Declaration::new(Version::XML10, Some(Encoding::UTF8), Some(true)))
    .root_name("root")
    .finalize();
    let result = xml_builder.build_from_json_string(CHILDOBJ_JSON);
    let actual = result.expect("Error building XML");
    assert_eq!(expected, actual);
}

#[test]
fn build_childobj_indent_tab() {
    let expected = "<?xml version=\"1.0\" encoding=\"UTF-8\" standalone=\"yes\"?>\n<SOAP-ENV:Envelope xmlns:SOAP-ENV=\"env\" xmlns:ns1=\"ns1\">\n\t<SOAP-ENV:Body>\n\t\t<ns1:createWorkflowProof>\n\t\t\t<SessionID>sid</SessionID>\n\t\t\t<OwnerID>0</OwnerID>\n\t\t\t<Hash>browns</Hash>\n\t\t</ns1:createWorkflowProof>\n\t</SOAP-ENV:Body>\n</SOAP-ENV:Envelope>";
    let mut xml_builder = XmlConfig::new()
    .rendering(Indentation::new(b'\t', 1))
    .decl(Declaration::new(Version::XML10, Some(Encoding::UTF8), Some(true)))
    .root_name("root")
    .finalize();
    let result = xml_builder.build_from_json_string(CHILDOBJ_JSON);
    let actual = result.expect("Error building XML");
    assert_eq!(expected, actual);
}

#[test]
fn build_childobj_indent_empty() {
    let expected = "<?xml version=\"1.0\" encoding=\"UTF-8\" standalone=\"yes\"?>\n<SOAP-ENV:Envelope xmlns:SOAP-ENV=\"env\" xmlns:ns1=\"ns1\">\n<SOAP-ENV:Body>\n<ns1:createWorkflowProof>\n<SessionID>sid</SessionID>\n<OwnerID>0</OwnerID>\n<Hash>browns</Hash>\n</ns1:createWorkflowProof>\n</SOAP-ENV:Body>\n</SOAP-ENV:Envelope>";
    let mut xml_builder = XmlConfig::new()
    .rendering(Indentation::new(b' ', 0))
    .decl(Declaration::new(Version::XML10, Some(Encoding::UTF8), Some(true)))
    .root_name("root")
    .finalize();
    let result = xml_builder.build_from_json_string(CHILDOBJ_JSON);
    let actual = result.expect("Error building XML");
    assert_eq!(expected, actual);
}

#[test]
fn build_childobj_version_11() {
    let expected = "<?xml version=\"1.1\" encoding=\"UTF-8\" standalone=\"yes\"?>\n<SOAP-ENV:Envelope xmlns:SOAP-ENV=\"env\" xmlns:ns1=\"ns1\">\n  <SOAP-ENV:Body>\n    <ns1:createWorkflowProof>\n      <SessionID>sid</SessionID>\n      <OwnerID>0</OwnerID>\n      <Hash>browns</Hash>\n    </ns1:createWorkflowProof>\n  </SOAP-ENV:Body>\n</SOAP-ENV:Envelope>";
    let mut xml_builder = XmlConfig::new()
    .rendering(Indentation::new(b' ', 2))
    .decl(Declaration::new(Version::XML11, Some(Encoding::UTF8), Some(true)))
    .root_name("root")
    .finalize();
    let result = xml_builder.build_from_json_string(CHILDOBJ_JSON);
    let actual = result.expect("Error building XML");
    assert_eq!(expected, actual);
}

#[test]
fn build_childobj_standalone_false() {
    let expected = "<?xml version=\"1.0\" encoding=\"UTF-8\" standalone=\"no\"?>\n<SOAP-ENV:Envelope xmlns:SOAP-ENV=\"env\" xmlns:ns1=\"ns1\">\n  <SOAP-ENV:Body>\n    <ns1:createWorkflowProof>\n      <SessionID>sid</SessionID>\n      <OwnerID>0</OwnerID>\n      <Hash>browns</Hash>\n    </ns1:createWorkflowProof>\n  </SOAP-ENV:Body>\n</SOAP-ENV:Envelope>";
    let mut xml_builder = XmlConfig::new()
    .rendering(Indentation::new(b' ', 2))
    .decl(Declaration::new(Version::XML10, Some(Encoding::UTF8), Some(false)))
    .root_name("root")
    .finalize();
    let result = xml_builder.build_from_json_string(CHILDOBJ_JSON);
    let actual = result.expect("Error building XML");
    assert_eq!(expected, actual);
}

#[test]
fn build_childobj_root_name_object() {
    let expected = "<?xml version=\"1.0\" encoding=\"UTF-8\" standalone=\"yes\"?>\n<object>\n  <SOAP-ENV:Envelope xmlns:SOAP-ENV=\"env\" xmlns:ns1=\"ns1\">\n    <SOAP-ENV:Body>\n      <ns1:createWorkflowProof>\n        <SessionID>sid</SessionID>\n        <OwnerID>0</OwnerID>\n        <Hash>browns</Hash>\n      </ns1:createWorkflowProof>\n    </SOAP-ENV:Body>\n  </SOAP-ENV:Envelope>\n</object>";
    let mut xml_builder = XmlConfig::new()
    .rendering(Indentation::new(b' ', 2))
    .decl(Declaration::new(Version::XML10, Some(Encoding::UTF8), Some(true)))
    .root_name("object")
    .finalize();
    let result = xml_builder.build_from_json_string(CHILDOBJ_JSON);
    let actual = result.expect("Error building XML");
    assert_eq!(expected, actual);
}

#[test]
fn xml_build_complex_default() {
    let expected = "<?xml version=\"1.0\" encoding=\"UTF-8\" standalone=\"yes\"?>\n<sample>\n  <simpletest>data</simpletest>\n  <simpletest2>data</simpletest2>\n  <chartest desc=\"Test for CHARs\">Character data here!</chartest>\n  <cdatatest desc=\"Test for CDATA\" misc=\"true\">CDATA here!</cdatatest>\n  <cdatawhitespacetest desc=\"Test for CDATA with whitespace\" misc=\"true\"/>\n  <nochartest desc=\"No data\" misc=\"false\"/>\n  <nochildrentest desc=\"No data\" misc=\"false\"/>\n  <whitespacetest desc=\"Test for       normalizing and trimming\">Line One Line Two</whitespacetest>\n  <listtest attr=\"Attribute\">\n    <item>\n      This is character data!\n      <subitem>Foo(1)</subitem>\n      <subitem>Foo(2)</subitem>\n      <subitem>Foo(3)</subitem>\n      <subitem>Foo(4)</subitem>\n    </item>\n    <item>Qux.</item>\n    <item>Quux.</item>\n    <single>Single</single>\n  </listtest>\n  <arraytest>\n    <item>\n      <subitem>Baz.</subitem>\n    </item>\n    <item>\n      <subitem>Foo.</subitem>\n      <subitem>Bar.</subitem>\n    </item>\n  </arraytest>\n  <emptytest/>\n  <tagcasetest>\n    <tAg>something</tAg>\n    <TAG>something else</TAG>\n    <tag>something third</tag>\n  </tagcasetest>\n  <ordertest>\n    <one>1</one>\n    <one>4</one>\n    <two>2</two>\n    <two>5</two>\n    <three>3</three>\n    <three>6</three>\n  </ordertest>\n  <validatortest>\n    <emptyarray/>\n    <oneitemarray>\n      <item>Bar.</item>\n    </oneitemarray>\n    <numbertest>42</numbertest>\n    <stringtest>43</stringtest>\n  </validatortest>\n  <pfx:top xmlns:pfx=\"http://foo.com\" pfx:attr=\"baz\">\n    <middle xmlns=\"http://bar.com\"/>\n  </pfx:top>\n  <attrNameProcessTest camelCaseAttr=\"camelCaseAttrValue\" lowercaseattr=\"lowercaseattrvalue\"/>\n  <attrValueProcessTest camelCaseAttr=\"camelCaseAttrValue\" lowerCaseAttr=\"lowercaseattrvalue\"/>\n  <tagNameProcessTest/>\n  <valueProcessTest>some value</valueProcessTest>\n  <textordertest>\n    this is text with in the middle\n    <b>markup</b>\n    <em>like this</em>\n  </textordertest>\n  <emptytestanother>\n\n    </emptytestanother>\n</sample>";
    let mut xml_builder = XmlConfig::new()
    .rendering(Indentation::new(b' ', 2))
    .decl(Declaration::new(Version::XML10, Some(Encoding::UTF8), Some(true)))
    .root_name("root")
    .finalize();
    let result = xml_builder.build_from_json_string(COMPLEX_JSON);
    let actual = result.expect("Error building XML");
    assert_eq!(expected, actual);
}

#[test]
fn build_complex_pretty_false() {
    let expected = "<?xml version=\"1.0\" encoding=\"UTF-8\" standalone=\"yes\"?><sample><simpletest>data</simpletest><simpletest2>data</simpletest2><chartest desc=\"Test for CHARs\">Character data here!</chartest><cdatatest desc=\"Test for CDATA\" misc=\"true\">CDATA here!</cdatatest><cdatawhitespacetest desc=\"Test for CDATA with whitespace\" misc=\"true\"/><nochartest desc=\"No data\" misc=\"false\"/><nochildrentest desc=\"No data\" misc=\"false\"/><whitespacetest desc=\"Test for       normalizing and trimming\">Line One Line Two</whitespacetest><listtest attr=\"Attribute\"><item>This is character data!<subitem>Foo(1)</subitem><subitem>Foo(2)</subitem><subitem>Foo(3)</subitem><subitem>Foo(4)</subitem></item><item>Qux.</item><item>Quux.</item><single>Single</single></listtest><arraytest><item><subitem>Baz.</subitem></item><item><subitem>Foo.</subitem><subitem>Bar.</subitem></item></arraytest><emptytest/><tagcasetest><tAg>something</tAg><TAG>something else</TAG><tag>something third</tag></tagcasetest><ordertest><one>1</one><one>4</one><two>2</two><two>5</two><three>3</three><three>6</three></ordertest><validatortest><emptyarray/><oneitemarray><item>Bar.</item></oneitemarray><numbertest>42</numbertest><stringtest>43</stringtest></validatortest><pfx:top xmlns:pfx=\"http://foo.com\" pfx:attr=\"baz\"><middle xmlns=\"http://bar.com\"/></pfx:top><attrNameProcessTest camelCaseAttr=\"camelCaseAttrValue\" lowercaseattr=\"lowercaseattrvalue\"/><attrValueProcessTest camelCaseAttr=\"camelCaseAttrValue\" lowerCaseAttr=\"lowercaseattrvalue\"/><tagNameProcessTest/><valueProcessTest>some value</valueProcessTest><textordertest>this is text with in the middle<b>markup</b><em>like this</em></textordertest><emptytestanother>\n\n    </emptytestanother></sample>";
    let mut xml_builder = XmlConfig::new()
    .decl(Declaration::new(Version::XML10, Some(Encoding::UTF8), Some(true)))
    .root_name("root")
    .finalize();
    let result = xml_builder.build_from_json_string(COMPLEX_JSON);
    let actual = result.expect("Error building XML");
    assert_eq!(expected, actual);
}

#[test]
fn build_complex_indent_tab() {
    let expected = "<?xml version=\"1.0\" encoding=\"UTF-8\" standalone=\"yes\"?>\n<sample>\n\t<simpletest>data</simpletest>\n\t<simpletest2>data</simpletest2>\n\t<chartest desc=\"Test for CHARs\">Character data here!</chartest>\n\t<cdatatest desc=\"Test for CDATA\" misc=\"true\">CDATA here!</cdatatest>\n\t<cdatawhitespacetest desc=\"Test for CDATA with whitespace\" misc=\"true\"/>\n\t<nochartest desc=\"No data\" misc=\"false\"/>\n\t<nochildrentest desc=\"No data\" misc=\"false\"/>\n\t<whitespacetest desc=\"Test for       normalizing and trimming\">Line One Line Two</whitespacetest>\n\t<listtest attr=\"Attribute\">\n\t\t<item>\n\t\t\tThis is character data!\n\t\t\t<subitem>Foo(1)</subitem>\n\t\t\t<subitem>Foo(2)</subitem>\n\t\t\t<subitem>Foo(3)</subitem>\n\t\t\t<subitem>Foo(4)</subitem>\n\t\t</item>\n\t\t<item>Qux.</item>\n\t\t<item>Quux.</item>\n\t\t<single>Single</single>\n\t</listtest>\n\t<arraytest>\n\t\t<item>\n\t\t\t<subitem>Baz.</subitem>\n\t\t</item>\n\t\t<item>\n\t\t\t<subitem>Foo.</subitem>\n\t\t\t<subitem>Bar.</subitem>\n\t\t</item>\n\t</arraytest>\n\t<emptytest/>\n\t<tagcasetest>\n\t\t<tAg>something</tAg>\n\t\t<TAG>something else</TAG>\n\t\t<tag>something third</tag>\n\t</tagcasetest>\n\t<ordertest>\n\t\t<one>1</one>\n\t\t<one>4</one>\n\t\t<two>2</two>\n\t\t<two>5</two>\n\t\t<three>3</three>\n\t\t<three>6</three>\n\t</ordertest>\n\t<validatortest>\n\t\t<emptyarray/>\n\t\t<oneitemarray>\n\t\t\t<item>Bar.</item>\n\t\t</oneitemarray>\n\t\t<numbertest>42</numbertest>\n\t\t<stringtest>43</stringtest>\n\t</validatortest>\n\t<pfx:top xmlns:pfx=\"http://foo.com\" pfx:attr=\"baz\">\n\t\t<middle xmlns=\"http://bar.com\"/>\n\t</pfx:top>\n\t<attrNameProcessTest camelCaseAttr=\"camelCaseAttrValue\" lowercaseattr=\"lowercaseattrvalue\"/>\n\t<attrValueProcessTest camelCaseAttr=\"camelCaseAttrValue\" lowerCaseAttr=\"lowercaseattrvalue\"/>\n\t<tagNameProcessTest/>\n\t<valueProcessTest>some value</valueProcessTest>\n\t<textordertest>\n\t\tthis is text with in the middle\n\t\t<b>markup</b>\n\t\t<em>like this</em>\n\t</textordertest>\n\t<emptytestanother>\n\n    </emptytestanother>\n</sample>";
    let mut xml_builder = XmlConfig::new()
    .rendering(Indentation::new(b'\t', 1))
    .decl(Declaration::new(Version::XML10, Some(Encoding::UTF8), Some(true)))
    .root_name("root")
    .finalize();
    let result = xml_builder.build_from_json_string(COMPLEX_JSON);
    let actual = result.expect("Error building XML");
    assert_eq!(expected, actual);
}

#[test]
fn build_complex_indent_empty() {
    let expected = "<?xml version=\"1.0\" encoding=\"UTF-8\" standalone=\"yes\"?>\n<sample>\n<simpletest>data</simpletest>\n<simpletest2>data</simpletest2>\n<chartest desc=\"Test for CHARs\">Character data here!</chartest>\n<cdatatest desc=\"Test for CDATA\" misc=\"true\">CDATA here!</cdatatest>\n<cdatawhitespacetest desc=\"Test for CDATA with whitespace\" misc=\"true\"/>\n<nochartest desc=\"No data\" misc=\"false\"/>\n<nochildrentest desc=\"No data\" misc=\"false\"/>\n<whitespacetest desc=\"Test for       normalizing and trimming\">Line One Line Two</whitespacetest>\n<listtest attr=\"Attribute\">\n<item>\nThis is character data!\n<subitem>Foo(1)</subitem>\n<subitem>Foo(2)</subitem>\n<subitem>Foo(3)</subitem>\n<subitem>Foo(4)</subitem>\n</item>\n<item>Qux.</item>\n<item>Quux.</item>\n<single>Single</single>\n</listtest>\n<arraytest>\n<item>\n<subitem>Baz.</subitem>\n</item>\n<item>\n<subitem>Foo.</subitem>\n<subitem>Bar.</subitem>\n</item>\n</arraytest>\n<emptytest/>\n<tagcasetest>\n<tAg>something</tAg>\n<TAG>something else</TAG>\n<tag>something third</tag>\n</tagcasetest>\n<ordertest>\n<one>1</one>\n<one>4</one>\n<two>2</two>\n<two>5</two>\n<three>3</three>\n<three>6</three>\n</ordertest>\n<validatortest>\n<emptyarray/>\n<oneitemarray>\n<item>Bar.</item>\n</oneitemarray>\n<numbertest>42</numbertest>\n<stringtest>43</stringtest>\n</validatortest>\n<pfx:top xmlns:pfx=\"http://foo.com\" pfx:attr=\"baz\">\n<middle xmlns=\"http://bar.com\"/>\n</pfx:top>\n<attrNameProcessTest camelCaseAttr=\"camelCaseAttrValue\" lowercaseattr=\"lowercaseattrvalue\"/>\n<attrValueProcessTest camelCaseAttr=\"camelCaseAttrValue\" lowerCaseAttr=\"lowercaseattrvalue\"/>\n<tagNameProcessTest/>\n<valueProcessTest>some value</valueProcessTest>\n<textordertest>\nthis is text with in the middle\n<b>markup</b>\n<em>like this</em>\n</textordertest>\n<emptytestanother>\n\n    </emptytestanother>\n</sample>";
    let mut xml_builder = XmlConfig::new()
    .rendering(Indentation::new(b' ', 0))
    .decl(Declaration::new(Version::XML10, Some(Encoding::UTF8), Some(true)))
    .root_name("root")
    .finalize();
    let result = xml_builder.build_from_json_string(COMPLEX_JSON);
    let actual = result.expect("Error building XML");
    assert_eq!(expected, actual);
}

#[test]
fn build_complex_version_11() {
    let expected = "<?xml version=\"1.1\" encoding=\"UTF-8\" standalone=\"yes\"?>\n<sample>\n  <simpletest>data</simpletest>\n  <simpletest2>data</simpletest2>\n  <chartest desc=\"Test for CHARs\">Character data here!</chartest>\n  <cdatatest desc=\"Test for CDATA\" misc=\"true\">CDATA here!</cdatatest>\n  <cdatawhitespacetest desc=\"Test for CDATA with whitespace\" misc=\"true\"/>\n  <nochartest desc=\"No data\" misc=\"false\"/>\n  <nochildrentest desc=\"No data\" misc=\"false\"/>\n  <whitespacetest desc=\"Test for       normalizing and trimming\">Line One Line Two</whitespacetest>\n  <listtest attr=\"Attribute\">\n    <item>\n      This is character data!\n      <subitem>Foo(1)</subitem>\n      <subitem>Foo(2)</subitem>\n      <subitem>Foo(3)</subitem>\n      <subitem>Foo(4)</subitem>\n    </item>\n    <item>Qux.</item>\n    <item>Quux.</item>\n    <single>Single</single>\n  </listtest>\n  <arraytest>\n    <item>\n      <subitem>Baz.</subitem>\n    </item>\n    <item>\n      <subitem>Foo.</subitem>\n      <subitem>Bar.</subitem>\n    </item>\n  </arraytest>\n  <emptytest/>\n  <tagcasetest>\n    <tAg>something</tAg>\n    <TAG>something else</TAG>\n    <tag>something third</tag>\n  </tagcasetest>\n  <ordertest>\n    <one>1</one>\n    <one>4</one>\n    <two>2</two>\n    <two>5</two>\n    <three>3</three>\n    <three>6</three>\n  </ordertest>\n  <validatortest>\n    <emptyarray/>\n    <oneitemarray>\n      <item>Bar.</item>\n    </oneitemarray>\n    <numbertest>42</numbertest>\n    <stringtest>43</stringtest>\n  </validatortest>\n  <pfx:top xmlns:pfx=\"http://foo.com\" pfx:attr=\"baz\">\n    <middle xmlns=\"http://bar.com\"/>\n  </pfx:top>\n  <attrNameProcessTest camelCaseAttr=\"camelCaseAttrValue\" lowercaseattr=\"lowercaseattrvalue\"/>\n  <attrValueProcessTest camelCaseAttr=\"camelCaseAttrValue\" lowerCaseAttr=\"lowercaseattrvalue\"/>\n  <tagNameProcessTest/>\n  <valueProcessTest>some value</valueProcessTest>\n  <textordertest>\n    this is text with in the middle\n    <b>markup</b>\n    <em>like this</em>\n  </textordertest>\n  <emptytestanother>\n\n    </emptytestanother>\n</sample>";
    let mut xml_builder = XmlConfig::new()
    .rendering(Indentation::new(b' ', 2))
    .decl(Declaration::new(Version::XML11, Some(Encoding::UTF8), Some(true)))
    .root_name("root")
    .finalize();
    let result = xml_builder.build_from_json_string(COMPLEX_JSON);
    let actual = result.expect("Error building XML");
    assert_eq!(expected, actual);
}

#[test]
fn build_complex_standalone_false() {
    let expected = "<?xml version=\"1.0\" encoding=\"UTF-8\" standalone=\"no\"?>\n<sample>\n  <simpletest>data</simpletest>\n  <simpletest2>data</simpletest2>\n  <chartest desc=\"Test for CHARs\">Character data here!</chartest>\n  <cdatatest desc=\"Test for CDATA\" misc=\"true\">CDATA here!</cdatatest>\n  <cdatawhitespacetest desc=\"Test for CDATA with whitespace\" misc=\"true\"/>\n  <nochartest desc=\"No data\" misc=\"false\"/>\n  <nochildrentest desc=\"No data\" misc=\"false\"/>\n  <whitespacetest desc=\"Test for       normalizing and trimming\">Line One Line Two</whitespacetest>\n  <listtest attr=\"Attribute\">\n    <item>\n      This is character data!\n      <subitem>Foo(1)</subitem>\n      <subitem>Foo(2)</subitem>\n      <subitem>Foo(3)</subitem>\n      <subitem>Foo(4)</subitem>\n    </item>\n    <item>Qux.</item>\n    <item>Quux.</item>\n    <single>Single</single>\n  </listtest>\n  <arraytest>\n    <item>\n      <subitem>Baz.</subitem>\n    </item>\n    <item>\n      <subitem>Foo.</subitem>\n      <subitem>Bar.</subitem>\n    </item>\n  </arraytest>\n  <emptytest/>\n  <tagcasetest>\n    <tAg>something</tAg>\n    <TAG>something else</TAG>\n    <tag>something third</tag>\n  </tagcasetest>\n  <ordertest>\n    <one>1</one>\n    <one>4</one>\n    <two>2</two>\n    <two>5</two>\n    <three>3</three>\n    <three>6</three>\n  </ordertest>\n  <validatortest>\n    <emptyarray/>\n    <oneitemarray>\n      <item>Bar.</item>\n    </oneitemarray>\n    <numbertest>42</numbertest>\n    <stringtest>43</stringtest>\n  </validatortest>\n  <pfx:top xmlns:pfx=\"http://foo.com\" pfx:attr=\"baz\">\n    <middle xmlns=\"http://bar.com\"/>\n  </pfx:top>\n  <attrNameProcessTest camelCaseAttr=\"camelCaseAttrValue\" lowercaseattr=\"lowercaseattrvalue\"/>\n  <attrValueProcessTest camelCaseAttr=\"camelCaseAttrValue\" lowerCaseAttr=\"lowercaseattrvalue\"/>\n  <tagNameProcessTest/>\n  <valueProcessTest>some value</valueProcessTest>\n  <textordertest>\n    this is text with in the middle\n    <b>markup</b>\n    <em>like this</em>\n  </textordertest>\n  <emptytestanother>\n\n    </emptytestanother>\n</sample>";
    let mut xml_builder = XmlConfig::new()
    .rendering(Indentation::new(b' ', 2))
    .decl(Declaration::new(Version::XML10, Some(Encoding::UTF8), Some(false)))
    .root_name("root")
    .finalize();
    let result = xml_builder.build_from_json_string(COMPLEX_JSON);
    let actual = result.expect("Error building XML");
    assert_eq!(expected, actual);
}

#[test]
fn build_complex_root_name_object() {
    let expected = "<?xml version=\"1.0\" encoding=\"UTF-8\" standalone=\"yes\"?>\n<object>\n  <sample>\n    <simpletest>data</simpletest>\n    <simpletest2>data</simpletest2>\n    <chartest desc=\"Test for CHARs\">Character data here!</chartest>\n    <cdatatest desc=\"Test for CDATA\" misc=\"true\">CDATA here!</cdatatest>\n    <cdatawhitespacetest desc=\"Test for CDATA with whitespace\" misc=\"true\"/>\n    <nochartest desc=\"No data\" misc=\"false\"/>\n    <nochildrentest desc=\"No data\" misc=\"false\"/>\n    <whitespacetest desc=\"Test for       normalizing and trimming\">Line One Line Two</whitespacetest>\n    <listtest attr=\"Attribute\">\n      <item>\n        This is character data!\n        <subitem>Foo(1)</subitem>\n        <subitem>Foo(2)</subitem>\n        <subitem>Foo(3)</subitem>\n        <subitem>Foo(4)</subitem>\n      </item>\n      <item>Qux.</item>\n      <item>Quux.</item>\n      <single>Single</single>\n    </listtest>\n    <arraytest>\n      <item>\n        <subitem>Baz.</subitem>\n      </item>\n      <item>\n        <subitem>Foo.</subitem>\n        <subitem>Bar.</subitem>\n      </item>\n    </arraytest>\n    <emptytest/>\n    <tagcasetest>\n      <tAg>something</tAg>\n      <TAG>something else</TAG>\n      <tag>something third</tag>\n    </tagcasetest>\n    <ordertest>\n      <one>1</one>\n      <one>4</one>\n      <two>2</two>\n      <two>5</two>\n      <three>3</three>\n      <three>6</three>\n    </ordertest>\n    <validatortest>\n      <emptyarray/>\n      <oneitemarray>\n        <item>Bar.</item>\n      </oneitemarray>\n      <numbertest>42</numbertest>\n      <stringtest>43</stringtest>\n    </validatortest>\n    <pfx:top xmlns:pfx=\"http://foo.com\" pfx:attr=\"baz\">\n      <middle xmlns=\"http://bar.com\"/>\n    </pfx:top>\n    <attrNameProcessTest camelCaseAttr=\"camelCaseAttrValue\" lowercaseattr=\"lowercaseattrvalue\"/>\n    <attrValueProcessTest camelCaseAttr=\"camelCaseAttrValue\" lowerCaseAttr=\"lowercaseattrvalue\"/>\n    <tagNameProcessTest/>\n    <valueProcessTest>some value</valueProcessTest>\n    <textordertest>\n      this is text with in the middle\n      <b>markup</b>\n      <em>like this</em>\n    </textordertest>\n    <emptytestanother>\n\n    </emptytestanother>\n  </sample>\n</object>";
    let mut xml_builder = XmlConfig::new()
    .rendering(Indentation::new(b' ', 2))
    .decl(Declaration::new(Version::XML10, Some(Encoding::UTF8), Some(true)))
    .root_name("object")
    .finalize();
    let result = xml_builder.build_from_json_string(COMPLEX_JSON);
    let actual = result.expect("Error building XML");
    assert_eq!(expected, actual);
}

#[test]
fn xml_build_lists_default() {
    let expected = "<?xml version=\"1.0\" encoding=\"UTF-8\" standalone=\"yes\"?>\n<outer>\n  <item>\n    This is character data!\n    <subitem>Foo(1)</subitem>\n    <subitem>Foo(2)</subitem>\n    <subitem>Foo(3)</subitem>\n    <subitem>4</subitem>\n  </item>\n  <item>Qux.</item>\n  <item>Quux.</item>\n</outer>";
    let mut xml_builder = XmlConfig::new()
    .rendering(Indentation::new(b' ', 2))
    .decl(Declaration::new(Version::XML10, Some(Encoding::UTF8), Some(true)))
    .root_name("root")
    .finalize();
    let result = xml_builder.build_from_json_string(LISTS_JSON);
    let actual = result.expect("Error building XML");
    assert_eq!(expected, actual);
}

#[test]
fn build_lists_pretty_false() {
    let expected = "<?xml version=\"1.0\" encoding=\"UTF-8\" standalone=\"yes\"?><outer><item>This is character data!<subitem>Foo(1)</subitem><subitem>Foo(2)</subitem><subitem>Foo(3)</subitem><subitem>4</subitem></item><item>Qux.</item><item>Quux.</item></outer>";
    let mut xml_builder = XmlConfig::new()
    .decl(Declaration::new(Version::XML10, Some(Encoding::UTF8), Some(true)))
    .root_name("root")
    .finalize();
    let result = xml_builder.build_from_json_string(LISTS_JSON);
    let actual = result.expect("Error building XML");
    assert_eq!(expected, actual);
}

#[test]
fn build_lists_indent_tab() {
    let expected = "<?xml version=\"1.0\" encoding=\"UTF-8\" standalone=\"yes\"?>\n<outer>\n\t<item>\n\t\tThis is character data!\n\t\t<subitem>Foo(1)</subitem>\n\t\t<subitem>Foo(2)</subitem>\n\t\t<subitem>Foo(3)</subitem>\n\t\t<subitem>4</subitem>\n\t</item>\n\t<item>Qux.</item>\n\t<item>Quux.</item>\n</outer>";
    let mut xml_builder = XmlConfig::new()
    .rendering(Indentation::new(b'\t', 1))
    .decl(Declaration::new(Version::XML10, Some(Encoding::UTF8), Some(true)))
    .root_name("root")
    .finalize();
    let result = xml_builder.build_from_json_string(LISTS_JSON);
    let actual = result.expect("Error building XML");
    assert_eq!(expected, actual);
}

#[test]
fn build_lists_indent_empty() {
    let expected = "<?xml version=\"1.0\" encoding=\"UTF-8\" standalone=\"yes\"?>\n<outer>\n<item>\nThis is character data!\n<subitem>Foo(1)</subitem>\n<subitem>Foo(2)</subitem>\n<subitem>Foo(3)</subitem>\n<subitem>4</subitem>\n</item>\n<item>Qux.</item>\n<item>Quux.</item>\n</outer>";
    let mut xml_builder = XmlConfig::new()
    .rendering(Indentation::new(b' ', 0))
    .decl(Declaration::new(Version::XML10, Some(Encoding::UTF8), Some(true)))
    .root_name("root")
    .finalize();
    let result = xml_builder.build_from_json_string(LISTS_JSON);
    let actual = result.expect("Error building XML");
    assert_eq!(expected, actual);
}

#[test]
fn build_lists_version_11() {
    let expected = "<?xml version=\"1.1\" encoding=\"UTF-8\" standalone=\"yes\"?>\n<outer>\n  <item>\n    This is character data!\n    <subitem>Foo(1)</subitem>\n    <subitem>Foo(2)</subitem>\n    <subitem>Foo(3)</subitem>\n    <subitem>4</subitem>\n  </item>\n  <item>Qux.</item>\n  <item>Quux.</item>\n</outer>";
    let mut xml_builder = XmlConfig::new()
    .rendering(Indentation::new(b' ', 2))
    .decl(Declaration::new(Version::XML11, Some(Encoding::UTF8), Some(true)))
    .root_name("root")
    .finalize();
    let result = xml_builder.build_from_json_string(LISTS_JSON);
    let actual = result.expect("Error building XML");
    assert_eq!(expected, actual);
}

#[test]
fn build_lists_standalone_false() {
    let expected = "<?xml version=\"1.0\" encoding=\"UTF-8\" standalone=\"no\"?>\n<outer>\n  <item>\n    This is character data!\n    <subitem>Foo(1)</subitem>\n    <subitem>Foo(2)</subitem>\n    <subitem>Foo(3)</subitem>\n    <subitem>4</subitem>\n  </item>\n  <item>Qux.</item>\n  <item>Quux.</item>\n</outer>";
    let mut xml_builder = XmlConfig::new()
    .rendering(Indentation::new(b' ', 2))
    .decl(Declaration::new(Version::XML10, Some(Encoding::UTF8), Some(false)))
    .root_name("root")
    .finalize();
    let result = xml_builder.build_from_json_string(LISTS_JSON);
    let actual = result.expect("Error building XML");
    assert_eq!(expected, actual);
}

#[test]
fn build_lists_root_name_object() {
    let expected = "<?xml version=\"1.0\" encoding=\"UTF-8\" standalone=\"yes\"?>\n<object>\n  <outer>\n    <item>\n      This is character data!\n      <subitem>Foo(1)</subitem>\n      <subitem>Foo(2)</subitem>\n      <subitem>Foo(3)</subitem>\n      <subitem>4</subitem>\n    </item>\n    <item>Qux.</item>\n    <item>Quux.</item>\n  </outer>\n</object>";
    let mut xml_builder = XmlConfig::new()
    .rendering(Indentation::new(b' ', 2))
    .decl(Declaration::new(Version::XML10, Some(Encoding::UTF8), Some(true)))
    .root_name("object")
    .finalize();
    let result = xml_builder.build_from_json_string(LISTS_JSON);
    let actual = result.expect("Error building XML");
    assert_eq!(expected, actual);
}

#[test]
fn build_multiroot_default() {
    let expected = "<?xml version=\"1.0\" encoding=\"UTF-8\" standalone=\"yes\"?>\n<root>\n  <key1>Value1</key1>\n  <key2>Value2</key2>\n</root>";
    let mut xml_builder = XmlConfig::new()
    .rendering(Indentation::new(b' ', 2))
    .decl(Declaration::new(Version::XML10, Some(Encoding::UTF8), Some(true)))
    .root_name("root")
    .finalize();
    let result = xml_builder.build_from_json_string(MULTIROOT_JSON);
    let actual = result.expect("Error building XML");
    assert_eq!(expected, actual);
}

#[test]
fn build_multiroot_pretty_false() {
    let expected = "<?xml version=\"1.0\" encoding=\"UTF-8\" standalone=\"yes\"?><root><key1>Value1</key1><key2>Value2</key2></root>";
    let mut xml_builder = XmlConfig::new()
    .decl(Declaration::new(Version::XML10, Some(Encoding::UTF8), Some(true)))
    .root_name("root")
    .finalize();
    let result = xml_builder.build_from_json_string(MULTIROOT_JSON);
    let actual = result.expect("Error building XML");
    assert_eq!(expected, actual);
}

#[test]
fn build_multiroot_indent_tab() {
    let expected = "<?xml version=\"1.0\" encoding=\"UTF-8\" standalone=\"yes\"?>\n<root>\n\t<key1>Value1</key1>\n\t<key2>Value2</key2>\n</root>";
    let mut xml_builder = XmlConfig::new()
    .rendering(Indentation::new(b'\t', 1))
    .decl(Declaration::new(Version::XML10, Some(Encoding::UTF8), Some(true)))
    .root_name("root")
    .finalize();
    let result = xml_builder.build_from_json_string(MULTIROOT_JSON);
    let actual = result.expect("Error building XML");
    assert_eq!(expected, actual);
}

#[test]
fn build_multiroot_indent_empty() {
    let expected = "<?xml version=\"1.0\" encoding=\"UTF-8\" standalone=\"yes\"?>\n<root>\n<key1>Value1</key1>\n<key2>Value2</key2>\n</root>";
    let mut xml_builder = XmlConfig::new()
    .rendering(Indentation::new(b' ', 0))
    .decl(Declaration::new(Version::XML10, Some(Encoding::UTF8), Some(true)))
    .root_name("root")
    .finalize();
    let result = xml_builder.build_from_json_string(MULTIROOT_JSON);
    let actual = result.expect("Error building XML");
    assert_eq!(expected, actual);
}

#[test]
fn build_multiroot_version_11() {
    let expected = "<?xml version=\"1.1\" encoding=\"UTF-8\" standalone=\"yes\"?>\n<root>\n  <key1>Value1</key1>\n  <key2>Value2</key2>\n</root>";
    let mut xml_builder = XmlConfig::new()
    .rendering(Indentation::new(b' ', 2))
    .decl(Declaration::new(Version::XML11, Some(Encoding::UTF8), Some(true)))
    .root_name("root")
    .finalize();
    let result = xml_builder.build_from_json_string(MULTIROOT_JSON);
    let actual = result.expect("Error building XML");
    assert_eq!(expected, actual);
}

#[test]
fn build_multiroot_standalone_false() {
    let expected = "<?xml version=\"1.0\" encoding=\"UTF-8\" standalone=\"no\"?>\n<root>\n  <key1>Value1</key1>\n  <key2>Value2</key2>\n</root>";
    let mut xml_builder = XmlConfig::new()
    .rendering(Indentation::new(b' ', 2))
    .decl(Declaration::new(Version::XML10, Some(Encoding::UTF8), Some(false)))
    .root_name("root")
    .finalize();
    let result = xml_builder.build_from_json_string(MULTIROOT_JSON);
    let actual = result.expect("Error building XML");
    assert_eq!(expected, actual);
}

#[test]
fn build_multiroot_root_name_object() {
    let expected = "<?xml version=\"1.0\" encoding=\"UTF-8\" standalone=\"yes\"?>\n<object>\n  <key1>Value1</key1>\n  <key2>Value2</key2>\n</object>";
    let mut xml_builder = XmlConfig::new()
    .rendering(Indentation::new(b' ', 2))
    .decl(Declaration::new(Version::XML10, Some(Encoding::UTF8), Some(true)))
    .root_name("object")
    .finalize();
    let result = xml_builder.build_from_json_string(MULTIROOT_JSON);
    let actual = result.expect("Error building XML");
    assert_eq!(expected, actual);
}

#[test]
fn build_singleroot_default() {
    let expected = "<?xml version=\"1.0\" encoding=\"UTF-8\" standalone=\"yes\"?>\n<foo>bar</foo>";
    let mut xml_builder = XmlConfig::new()
    .rendering(Indentation::new(b' ', 2))
    .decl(Declaration::new(Version::XML10, Some(Encoding::UTF8), Some(true)))
    .root_name("root")
    .finalize();
    let result = xml_builder.build_from_json_string(SINGLEROOT_JSON);
    let actual = result.expect("Error building XML");
    assert_eq!(expected, actual);
}

#[test]
fn build_singleroot_pretty_false() {
    let expected = "<?xml version=\"1.0\" encoding=\"UTF-8\" standalone=\"yes\"?><foo>bar</foo>";
    let mut xml_builder = XmlConfig::new()
    .decl(Declaration::new(Version::XML10, Some(Encoding::UTF8), Some(true)))
    .root_name("root")
    .finalize();
    let result = xml_builder.build_from_json_string(SINGLEROOT_JSON);
    let actual = result.expect("Error building XML");
    assert_eq!(expected, actual);
}

#[test]
fn build_singleroot_version_11() {
    let expected = "<?xml version=\"1.1\" encoding=\"UTF-8\" standalone=\"yes\"?>\n<foo>bar</foo>";
    let mut xml_builder = XmlConfig::new()
    .rendering(Indentation::new(b' ', 2))
    .decl(Declaration::new(Version::XML11, Some(Encoding::UTF8), Some(true)))
    .root_name("root")
    .finalize();
    let result = xml_builder.build_from_json_string(SINGLEROOT_JSON);
    let actual = result.expect("Error building XML");
    assert_eq!(expected, actual);
}

#[test]
fn build_singleroot_standalone_false() {
    let expected = "<?xml version=\"1.0\" encoding=\"UTF-8\" standalone=\"no\"?>\n<foo>bar</foo>";
    let mut xml_builder = XmlConfig::new()
    .rendering(Indentation::new(b' ', 2))
    .decl(Declaration::new(Version::XML10, Some(Encoding::UTF8), Some(false)))
    .root_name("root")
    .finalize();
    let result = xml_builder.build_from_json_string(SINGLEROOT_JSON);
    let actual = result.expect("Error building XML");
    assert_eq!(expected, actual);
}

#[test]
fn build_singleroot_root_name_object() {
    let expected = "<?xml version=\"1.0\" encoding=\"UTF-8\" standalone=\"yes\"?>\n<object>\n  <foo>bar</foo>\n</object>";
    let mut xml_builder = XmlConfig::new()
    .rendering(Indentation::new(b' ', 2))
    .decl(Declaration::new(Version::XML10, Some(Encoding::UTF8), Some(true)))
    .root_name("object")
    .finalize();
    let result = xml_builder.build_from_json_string(SINGLEROOT_JSON);
    let actual = result.expect("Error building XML");
    assert_eq!(expected, actual);
}

#[test]
fn build_soap_default() {
    let expected = "<?xml version=\"1.0\" encoding=\"UTF-8\" standalone=\"yes\"?>\n<SOAP-ENV:Envelope xmlns:SOAP-ENV=\"http://schemas.xmlsoap.org/soap/envelope/\" xmlns:ns1=\"https://paper-street.soap.com/\">\n  <SOAP-ENV:Body>\n    <ns1:createWorkflowProof>\n      <SessionID>sid</SessionID>\n      <Stages>\n        <item>\n          <stage_reviewers>\n            <item>\n              <email>robert.paulson@gmail.com</email>\n            </item>\n          </stage_reviewers>\n          <name>Stage 1</name>\n        </item>\n        <item>\n          <stage_reviewers>\n            <item>\n              <email>tyler.durden@gmail.com</email>\n            </item>\n          </stage_reviewers>\n          <name>Stage 2</name>\n        </item>\n      </Stages>\n    </ns1:createWorkflowProof>\n  </SOAP-ENV:Body>\n</SOAP-ENV:Envelope>";
    let mut xml_builder = XmlConfig::new()
    .rendering(Indentation::new(b' ', 2))
    .decl(Declaration::new(Version::XML10, Some(Encoding::UTF8), Some(true)))
    .root_name("root")
    .finalize();
    let result = xml_builder.build_from_json_string(SOAP_JSON);
    let actual = result.expect("Error building XML");
    assert_eq!(expected, actual);
}

#[test]
fn build_soap_pretty_false() {
    let expected = "<?xml version=\"1.0\" encoding=\"UTF-8\" standalone=\"yes\"?><SOAP-ENV:Envelope xmlns:SOAP-ENV=\"http://schemas.xmlsoap.org/soap/envelope/\" xmlns:ns1=\"https://paper-street.soap.com/\"><SOAP-ENV:Body><ns1:createWorkflowProof><SessionID>sid</SessionID><Stages><item><stage_reviewers><item><email>robert.paulson@gmail.com</email></item></stage_reviewers><name>Stage 1</name></item><item><stage_reviewers><item><email>tyler.durden@gmail.com</email></item></stage_reviewers><name>Stage 2</name></item></Stages></ns1:createWorkflowProof></SOAP-ENV:Body></SOAP-ENV:Envelope>";
    let mut xml_builder = XmlConfig::new()
    .decl(Declaration::new(Version::XML10, Some(Encoding::UTF8), Some(true)))
    .root_name("root")
    .finalize();
    let result = xml_builder.build_from_json_string(SOAP_JSON);
    let actual = result.expect("Error building XML");
    assert_eq!(expected, actual);
}

#[test]
fn build_soap_indent_tab() {
    let expected = "<?xml version=\"1.0\" encoding=\"UTF-8\" standalone=\"yes\"?>\n<SOAP-ENV:Envelope xmlns:SOAP-ENV=\"http://schemas.xmlsoap.org/soap/envelope/\" xmlns:ns1=\"https://paper-street.soap.com/\">\n\t<SOAP-ENV:Body>\n\t\t<ns1:createWorkflowProof>\n\t\t\t<SessionID>sid</SessionID>\n\t\t\t<Stages>\n\t\t\t\t<item>\n\t\t\t\t\t<stage_reviewers>\n\t\t\t\t\t\t<item>\n\t\t\t\t\t\t\t<email>robert.paulson@gmail.com</email>\n\t\t\t\t\t\t</item>\n\t\t\t\t\t</stage_reviewers>\n\t\t\t\t\t<name>Stage 1</name>\n\t\t\t\t</item>\n\t\t\t\t<item>\n\t\t\t\t\t<stage_reviewers>\n\t\t\t\t\t\t<item>\n\t\t\t\t\t\t\t<email>tyler.durden@gmail.com</email>\n\t\t\t\t\t\t</item>\n\t\t\t\t\t</stage_reviewers>\n\t\t\t\t\t<name>Stage 2</name>\n\t\t\t\t</item>\n\t\t\t</Stages>\n\t\t</ns1:createWorkflowProof>\n\t</SOAP-ENV:Body>\n</SOAP-ENV:Envelope>";
    let mut xml_builder = XmlConfig::new()
    .rendering(Indentation::new(b'\t', 1))
    .decl(Declaration::new(Version::XML10, Some(Encoding::UTF8), Some(true)))
    .root_name("root")
    .finalize();
    let result = xml_builder.build_from_json_string(SOAP_JSON);
    let actual = result.expect("Error building XML");
    assert_eq!(expected, actual);
}

#[test]
fn build_soap_indent_empty() {
    let expected = "<?xml version=\"1.0\" encoding=\"UTF-8\" standalone=\"yes\"?>\n<SOAP-ENV:Envelope xmlns:SOAP-ENV=\"http://schemas.xmlsoap.org/soap/envelope/\" xmlns:ns1=\"https://paper-street.soap.com/\">\n<SOAP-ENV:Body>\n<ns1:createWorkflowProof>\n<SessionID>sid</SessionID>\n<Stages>\n<item>\n<stage_reviewers>\n<item>\n<email>robert.paulson@gmail.com</email>\n</item>\n</stage_reviewers>\n<name>Stage 1</name>\n</item>\n<item>\n<stage_reviewers>\n<item>\n<email>tyler.durden@gmail.com</email>\n</item>\n</stage_reviewers>\n<name>Stage 2</name>\n</item>\n</Stages>\n</ns1:createWorkflowProof>\n</SOAP-ENV:Body>\n</SOAP-ENV:Envelope>";
    let mut xml_builder = XmlConfig::new()
    .rendering(Indentation::new(b' ', 0))
    .decl(Declaration::new(Version::XML10, Some(Encoding::UTF8), Some(true)))
    .root_name("root")
    .finalize();
    let result = xml_builder.build_from_json_string(SOAP_JSON);
    let actual = result.expect("Error building XML");
    assert_eq!(expected, actual);
}

#[test]
fn build_soap_version_11() {
    let expected = "<?xml version=\"1.1\" encoding=\"UTF-8\" standalone=\"yes\"?>\n<SOAP-ENV:Envelope xmlns:SOAP-ENV=\"http://schemas.xmlsoap.org/soap/envelope/\" xmlns:ns1=\"https://paper-street.soap.com/\">\n  <SOAP-ENV:Body>\n    <ns1:createWorkflowProof>\n      <SessionID>sid</SessionID>\n      <Stages>\n        <item>\n          <stage_reviewers>\n            <item>\n              <email>robert.paulson@gmail.com</email>\n            </item>\n          </stage_reviewers>\n          <name>Stage 1</name>\n        </item>\n        <item>\n          <stage_reviewers>\n            <item>\n              <email>tyler.durden@gmail.com</email>\n            </item>\n          </stage_reviewers>\n          <name>Stage 2</name>\n        </item>\n      </Stages>\n    </ns1:createWorkflowProof>\n  </SOAP-ENV:Body>\n</SOAP-ENV:Envelope>";
    let mut xml_builder = XmlConfig::new()
    .rendering(Indentation::new(b' ', 2))
    .decl(Declaration::new(Version::XML11, Some(Encoding::UTF8), Some(true)))
    .root_name("root")
    .finalize();
    let result = xml_builder.build_from_json_string(SOAP_JSON);
    let actual = result.expect("Error building XML");
    assert_eq!(expected, actual);
}

#[test]
fn build_soap_standalone_false() {
    let expected = "<?xml version=\"1.0\" encoding=\"UTF-8\" standalone=\"no\"?>\n<SOAP-ENV:Envelope xmlns:SOAP-ENV=\"http://schemas.xmlsoap.org/soap/envelope/\" xmlns:ns1=\"https://paper-street.soap.com/\">\n  <SOAP-ENV:Body>\n    <ns1:createWorkflowProof>\n      <SessionID>sid</SessionID>\n      <Stages>\n        <item>\n          <stage_reviewers>\n            <item>\n              <email>robert.paulson@gmail.com</email>\n            </item>\n          </stage_reviewers>\n          <name>Stage 1</name>\n        </item>\n        <item>\n          <stage_reviewers>\n            <item>\n              <email>tyler.durden@gmail.com</email>\n            </item>\n          </stage_reviewers>\n          <name>Stage 2</name>\n        </item>\n      </Stages>\n    </ns1:createWorkflowProof>\n  </SOAP-ENV:Body>\n</SOAP-ENV:Envelope>";
    let mut xml_builder = XmlConfig::new()
    .rendering(Indentation::new(b' ', 2))
    .decl(Declaration::new(Version::XML10, Some(Encoding::UTF8), Some(false)))
    .root_name("root")
    .finalize();
    let result = xml_builder.build_from_json_string(SOAP_JSON);
    let actual = result.expect("Error building XML");
    assert_eq!(expected, actual);
}

#[test]
fn build_soap_root_name_object() {
    let expected = "<?xml version=\"1.0\" encoding=\"UTF-8\" standalone=\"yes\"?>\n<object>\n  <SOAP-ENV:Envelope xmlns:SOAP-ENV=\"http://schemas.xmlsoap.org/soap/envelope/\" xmlns:ns1=\"https://paper-street.soap.com/\">\n    <SOAP-ENV:Body>\n      <ns1:createWorkflowProof>\n        <SessionID>sid</SessionID>\n        <Stages>\n          <item>\n            <stage_reviewers>\n              <item>\n                <email>robert.paulson@gmail.com</email>\n              </item>\n            </stage_reviewers>\n            <name>Stage 1</name>\n          </item>\n          <item>\n            <stage_reviewers>\n              <item>\n                <email>tyler.durden@gmail.com</email>\n              </item>\n            </stage_reviewers>\n            <name>Stage 2</name>\n          </item>\n        </Stages>\n      </ns1:createWorkflowProof>\n    </SOAP-ENV:Body>\n  </SOAP-ENV:Envelope>\n</object>";
    let mut xml_builder = XmlConfig::new()
    .rendering(Indentation::new(b' ', 2))
    .decl(Declaration::new(Version::XML10, Some(Encoding::UTF8), Some(true)))
    .root_name("object")
    .finalize();
    let result = xml_builder.build_from_json_string(SOAP_JSON);
    let actual = result.expect("Error building XML");
    assert_eq!(expected, actual);
}
