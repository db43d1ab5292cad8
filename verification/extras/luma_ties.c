/* Single-precision Rec.709 luma against the exact integer formula.
 *
 * For every RGB triple, computes 0.2126 R + 0.7152 G + 0.0722 B in f32 (in that
 * order, rounded half away from zero, clamped to 0..255) and compares it with
 * (2126 R + 7152 G + 722 B + 5000) / 10000 in integers. Prints the counts and
 * writes the triples where they differ to ties.txt: all of them are exact ties
 * (remainder 5000) that f32 rounds down. The library keeps that list as its
 * TIE_DOWN table, so its integer luma equals the float one on every input. */
#include <stdio.h>
#include <math.h>
int main(){
  long bad=0, nontie=0, ties=0;
  FILE* out=fopen("ties.txt","w");
  for(int r=0;r<256;r++)for(int g=0;g<256;g++)for(int b=0;b<256;b++){
    volatile float a = 0.2126f*(float)r; volatile float bb = 0.7152f*(float)g; volatile float c=0.0722f*(float)b;
    volatile float y = a + bb; y = y + c;
    float rr = roundf(y); if (rr<0) rr=0; if (rr>255) rr=255;
    int f = (int)rr;
    int s = 2126*r + 7152*g + 722*b;
    int i = (s + 5000)/10000;
    if (s%10000==5000) ties++;
    if (f!=i){ bad++; if (s%10000!=5000) nontie++; else fprintf(out,"[%d, %d, %d],\n",r,g,b);}
  }
  printf("bad=%ld nontie=%ld ties=%ld\n",bad,nontie,ties);
}
