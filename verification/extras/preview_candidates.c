/* The 24 preview candidates: hues 15 degrees apart (odd ones shifted by 11),
 * alternating bright and dark values, saturation lowered on every third, each
 * converted from HSV to 8-bit RGB in f32. The library keeps the output as its
 * PREVIEW_CANDIDATES table. */
#include <stdio.h>
#include <math.h>
int main(){
  for(int k=0;k<24;k++){
    float hue = fmodf(((float)k*360.0f/(float)24 + (float)(k%2)*11.0f), 360.0f);
    float value = (k%2==0)?0.97f:0.66f;
    float sat = (k%3==0)?0.55f:0.90f;
    float h=hue,s=sat,v=value;
    float c = v*s;
    float x = c*(1.0f - fabsf(fmodf(h/60.0f, 2.0f) - 1.0f));
    float m = v - c;
    float r,g,b;
    unsigned sec = (unsigned)(h/60.0f);
    switch(sec){case 0: r=c;g=x;b=0;break; case 1: r=x;g=c;b=0;break; case 2: r=0;g=c;b=x;break; case 3: r=0;g=x;b=c;break; case 4: r=x;g=0;b=c;break; default: r=c;g=0;b=x;}
    printf("[%d, %d, %d],\n", (int)roundf((r+m)*255.0f), (int)roundf((g+m)*255.0f), (int)roundf((b+m)*255.0f));
  }
}
